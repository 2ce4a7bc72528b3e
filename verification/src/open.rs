//! Opening an image, and a chain of images.

use crate::bytes::{be64, found_at, lemma_found_be64, read_u64, zero_vec, zeros};
use crate::device::BlockDevice;
use crate::error::{from_device, DeviceError, Error};
use crate::header::{header_fields, header_refusal, lemma_cluster_size, Header};
use crate::image::Image;
use crate::reader::Qcow2Reader;
use crate::refcount::lemma_refcount_geometry;
use vstd::prelude::*;
use vstd::utf8::{decode_utf8, valid_utf8};

verus! {

/// How many bytes are read for the header: enough for its last field.
pub const HEAD_BYTES: usize = 112;

/// How many bytes the header has at the least.
pub const MIN_HEAD_BYTES: usize = 72;

/// The longest chain of images that is opened. One that is longer may be a cycle.
pub const MAX_BACKING_DEPTH: u32 = 16;

/// The start of a device that holds `s`, of which `n` bytes could be read.
pub open spec fn head_of(s: Seq<u8>, n: int) -> Seq<u8> {
    s.subrange(0, n) + zeros(HEAD_BYTES - n)
}

/// `head` is the start of a device that holds `s`.
pub open spec fn is_head(s: Seq<u8>, head: Seq<u8>) -> bool {
    exists|n: int|
        MIN_HEAD_BYTES <= n <= HEAD_BYTES && n <= s.len() && head == #[trigger] head_of(s, n)
}

/// As much of the header as the device has.
pub open spec fn whole_head(s: Seq<u8>) -> Seq<u8> {
    head_of(
        s,
        if s.len() < HEAD_BYTES {
            s.len() as int
        } else {
            HEAD_BYTES as int
        },
    )
}

/// The L1 table of an image with header `h` on a device that holds `s`.
pub open spec fn l1_table(s: Seq<u8>, h: Header) -> Seq<u64> {
    Seq::new(h.l1_size as nat, |i: int| be64(s, h.l1_table_offset + 8 * i))
}

/// The image whose header is `head`, on a device that holds `s`, with nothing
/// behind it.
pub open spec fn lone_image(s: Seq<u8>, head: Seq<u8>) -> Image {
    let h = header_fields(head);
    Image { header: h, l1: l1_table(s, h), bytes: s, backing: None }
}

/// Why the image whose header is `head` is not opened, on a device of `size` bytes,
/// if it is not.
pub open spec fn open_refusal(head: Seq<u8>, size: int, writable: bool) -> Option<Error> {
    let h = header_fields(head);
    if header_refusal(head) is Some {
        header_refusal(head)
    } else if h.support_refusal() is Some {
        h.support_refusal()
    } else if h.layout_refusal(size) is Some {
        h.layout_refusal(size)
    } else if writable {
        h.write_refusal()
    } else {
        None
    }
}

/// Reads the start of the device. A device that is shorter than a header may be is
/// read as far as it goes.
fn read_head<D: BlockDevice>(dev: &D) -> (r: Result<Vec<u8>, Error>)
    ensures
        r matches Ok(v) ==> is_head(dev.contents(), v@),
        dev.dependable() ==> match r {
            Ok(v) => dev.contents().len() >= MIN_HEAD_BYTES && v@ == whole_head(dev.contents()),
            Err(e) => dev.contents().len() < MIN_HEAD_BYTES && e is Io,
        },
{
    let mut head: Vec<u8> = zero_vec(HEAD_BYTES);
    let answer = dev.read_at(0, head.as_mut_slice());
    match answer {
        Ok(()) => {
            assert(head@ =~= head_of(dev.contents(), HEAD_BYTES as int));
            Ok(head)
        },
        Err(DeviceError::ShortRead { offset, want, got }) => {
            if got < MIN_HEAD_BYTES {
                return Err(from_device(DeviceError::ShortRead { offset, want, got }));
            }
            let mut i: usize = got;
            let ghost read = head@;
            while i < HEAD_BYTES
                invariant
                    got <= i <= HEAD_BYTES,
                    head@.len() == HEAD_BYTES,
                    read.len() == HEAD_BYTES,
                    forall|j: int| 0 <= j < got ==> #[trigger] head@[j] == read[j],
                    forall|j: int| got <= j < i ==> #[trigger] head@[j] == 0,
                decreases HEAD_BYTES - i,
            {
                head.set(i, 0u8);
                i = i + 1;
            }
            assert(head@ =~= head_of(dev.contents(), got as int));
            Ok(head)
        },
        Err(e) => Err(from_device(e)),
    }
}

impl<D: BlockDevice> Qcow2Reader<D> {
    /// Reads the L1 table, a cluster at a time.
    fn read_l1(dev: &D, header: &Header) -> (r: Result<Vec<u64>, Error>)
        requires
            header.geometry_ok(),
            header.tables_addressable(),
            header.layout_refusal(dev.contents().len() as int) is None,
        ensures
            r matches Ok(v) ==> v@ == l1_table(dev.contents(), *header),
            dev.dependable() ==> r is Ok,
    {
        proof {
            lemma_cluster_size(header.cluster_bits);
        }
        let per_cluster: u64 = header.l2_entries();
        let total: u64 = header.l1_size as u64;
        let mut l1: Vec<u64> = Vec::new();
        let mut done: u64 = 0;
        while done < total
            invariant
                header.geometry_ok(),
                header.tables_addressable(),
                header.layout_refusal(dev.contents().len() as int) is None,
                total == header.l1_size,
                64 <= per_cluster <= 0x4_0000,
                done <= total,
                l1@.len() == done,
                forall|i: int|
                    0 <= i < done ==> #[trigger] l1@[i] == be64(
                        dev.contents(),
                        header.l1_table_offset + 8 * i,
                    ),
            decreases total - done,
        {
            let n: u64 = if total - done < per_cluster {
                total - done
            } else {
                per_cluster
            };
            let off: u64 = header.l1_table_offset + done * 8;
            let mut part: Vec<u8> = zero_vec(n as usize * 8);
            let answer = dev.read_at(off, part.as_mut_slice());
            match answer {
                Ok(()) => {},
                Err(e) => {
                    return Err(from_device(e));
                },
            }
            let mut i: u64 = 0;
            while i < n
                invariant
                    i <= n,
                    n <= 0x4_0000,
                    part@.len() == n * 8,
                    off == header.l1_table_offset + done * 8,
                    found_at(dev.contents(), off as int, part@),
                    l1@.len() == done + i,
                    forall|j: int|
                        0 <= j < done + i ==> #[trigger] l1@[j] == be64(
                            dev.contents(),
                            header.l1_table_offset + 8 * j,
                        ),
                decreases n - i,
            {
                proof {
                    lemma_found_be64(dev.contents(), off as int, part@, i * 8);
                }
                l1.push(read_u64(part.as_slice(), i as usize * 8));
                i = i + 1;
            }
            done = done + n;
        }
        assert(l1@ =~= l1_table(dev.contents(), *header));
        Ok(l1)
    }

    /// Opens one image, whatever it names as its backing file.
    fn open_layer(dev: D, writable: bool) -> (r: Result<Self, Error>)
        ensures
            r matches Ok(x) ==> x.inv() && x.device() == dev && x.opened_writable() == writable && (
            exists|head: Seq<u8>| #[trigger]
                is_head(dev.contents(), head) && open_refusal(
                    head,
                    dev.contents().len() as int,
                    writable,
                ) is None && x@ == lone_image(dev.contents(), head)),
            dev.dependable() ==> opens_as(dev.contents(), writable, r) && (r matches Ok(x)
                ==> x.dependable()),
    {
        let head: Vec<u8> = match read_head(&dev) {
            Ok(v) => v,
            Err(e) => {
                return Err(e);
            },
        };
        let header: Header = match Header::parse(head.as_slice()) {
            Ok(h) => h,
            Err(e) => {
                return Err(e);
            },
        };
        match header.check_supported() {
            Ok(()) => {},
            Err(e) => {
                return Err(e);
            },
        }
        match header.check_layout(dev.size_bytes()) {
            Ok(()) => {},
            Err(e) => {
                return Err(e);
            },
        }
        if writable {
            match header.check_writable() {
                Ok(()) => {},
                Err(e) => {
                    return Err(e);
                },
            }
        }
        proof {
            lemma_refcount_geometry(header);
        }
        let l1: Vec<u64> = match Self::read_l1(&dev, &header) {
            Ok(v) => v,
            Err(e) => {
                return Err(e);
            },
        };
        let x = Qcow2Reader {
            dev,
            header,
            l1,
            l2_cache: None,
            decompress_cache: None,
            backing: None,
            writable,
        };
        assert(is_head(dev.contents(), head@));
        assert(x@ == lone_image(dev.contents(), head@));
        Ok(x)
    }

    /// Opens the image on `dev` to be read. There is no path against which the name
    /// of a backing file could be resolved, so an image that has one is refused.
    pub fn open_on_device(dev: D) -> (r: Result<Self, Error>)
        ensures
            r matches Ok(x) ==> x.inv() && x.device() == dev && !x.opened_writable() && (
            exists|head: Seq<u8>| #[trigger]
                is_head(dev.contents(), head) && open_refusal(
                    head,
                    dev.contents().len() as int,
                    false,
                ) is None && x@ == lone_image(dev.contents(), head)
                    && !x@.header.names_backing()),
            dev.dependable() ==> opens_alone_as(dev.contents(), false, r) && (r matches Ok(x)
                ==> x.dependable()),
    {
        match Self::open_layer(dev, false) {
            Ok(x) => {
                if x.header.has_backing_name() {
                    return Err(
                        Error::Unsupported(
                            "image references a backing file; open by path to resolve the chain",
                        ),
                    );
                }
                Ok(x)
            },
            Err(e) => Err(e),
        }
    }

    /// Opens the image on `dev` to be read and written. The device has to take
    /// writes; for the backing file, see [`Qcow2Reader::open_on_device`].
    pub fn open_rw_on_device(dev: D) -> (r: Result<Self, Error>)
        ensures
            !dev.accepts_writes() ==> r == Err::<Self, Error>(Error::ReadOnly),
            r matches Ok(x) ==> x.inv() && x.device() == dev && x.opened_writable() && (
            exists|head: Seq<u8>| #[trigger]
                is_head(dev.contents(), head) && open_refusal(
                    head,
                    dev.contents().len() as int,
                    true,
                ) is None && x@ == lone_image(dev.contents(), head)
                    && !x@.header.names_backing()),
            dev.accepts_writes() && dev.dependable() ==> opens_alone_as(dev.contents(), true, r)
                && (r matches Ok(x) ==> x.dependable()),
    {
        if !dev.is_writable() {
            return Err(Error::ReadOnly);
        }
        match Self::open_layer(dev, true) {
            Ok(x) => {
                if x.header.has_backing_name() {
                    return Err(
                        Error::Unsupported(
                            "image references a backing file; open by path to resolve the chain",
                        ),
                    );
                }
                Ok(x)
            },
            Err(e) => Err(e),
        }
    }
}

/// The characters that `bytes` spell in UTF-8, read by `String::from_utf8`; nothing
/// if they are not valid UTF-8.
#[verifier::external_body]
fn utf8_text(bytes: Vec<u8>) -> (r: Option<String>)
    ensures
        match r {
            Some(s) => valid_utf8(bytes@) && s@ == decode_utf8(bytes@),
            None => !valid_utf8(bytes@),
        },
{
    String::from_utf8(bytes).ok()
}

/// The bytes of the name of the backing file.
pub open spec fn backing_name_bytes(img: Image) -> Seq<u8> {
    img.bytes.subrange(
        img.header.backing_file_offset as int,
        img.header.backing_file_offset + img.header.backing_file_size,
    )
}

impl<D: BlockDevice> Qcow2Reader<D> {
    /// The name of the backing file.
    fn backing_name(&self) -> (r: Result<String, Error>)
        requires
            self.inv(),
            self@.header.names_backing(),
        ensures
            match self@.header.backing_name_refusal() {
                Some(e) => r == Err::<String, Error>(e),
                None => {
                    &&& r matches Ok(s) ==> self@.header.backing_file_offset
                        + self@.header.backing_file_size <= self@.bytes.len() && valid_utf8(
                        backing_name_bytes(self@),
                    ) && s@ == decode_utf8(backing_name_bytes(self@))
                    &&& r matches Err(e) ==> self.dependable() ==> if self@.header.backing_file_offset
                        + self@.header.backing_file_size > self@.bytes.len() {
                        e is Io
                    } else {
                        e == Error::BadBackingPath && !valid_utf8(backing_name_bytes(self@))
                    }
                },
            },
    {
        match self.header.check_backing_name() {
            Ok(()) => {},
            Err(e) => {
                return Err(e);
            },
        }
        match self.dev_read(
            self.header.backing_file_offset,
            self.header.backing_file_size as usize,
        ) {
            Ok(v) => {
                assert(v@ =~= backing_name_bytes(self@));
                match utf8_text(v) {
                    Some(s) => Ok(s),
                    None => Err(Error::BadBackingPath),
                }
            },
            Err(e) => Err(e),
        }
    }
}

/// `name` is what the image `img` names as its backing file.
pub open spec fn names(img: Image, name: Option<String>) -> bool {
    match name {
        None => !img.header.names_backing(),
        Some(s) => img.header.names_backing() && img.header.backing_name_refusal() is None
            && valid_utf8(backing_name_bytes(img)) && s@ == decode_utf8(backing_name_bytes(img)),
    }
}

impl<D: BlockDevice> Qcow2Reader<D> {
    /// Opens one image, and reads what it names as its backing file.
    fn open_named(dev: D, writable: bool) -> (r: Result<(Self, Option<String>), Error>)
        ensures
            r matches Ok(p) ==> p.0.inv() && p.0.backing is None && p.0.writable == writable
                && p.0.dev == dev && names(p.0@, p.1) && (exists|head: Seq<u8>| #[trigger]
                is_head(dev.contents(), head) && open_refusal(
                    head,
                    dev.contents().len() as int,
                    writable,
                ) is None && p.0@ == lone_image(dev.contents(), head)),
            dev.dependable() ==> match r {
                Ok(p) => p.0.dependable() && layer_opens_as(
                    dev.contents(),
                    writable,
                    Ok::<Option<String>, Error>(p.1),
                ),
                Err(e) => layer_opens_as(
                    dev.contents(),
                    writable,
                    Err::<Option<String>, Error>(e),
                ),
            },
    {
        let layer: Qcow2Reader<D> = match Qcow2Reader::open_layer(dev, writable) {
            Ok(x) => x,
            Err(e) => {
                return Err(e);
            },
        };
        if !layer.header.has_backing_name() {
            return Ok((layer, None));
        }
        match layer.backing_name() {
            Ok(s) => Ok((layer, Some(s))),
            Err(e) => Err(e),
        }
    }
}

/// A chain of images while it is being opened: the image itself, the one behind
/// it, and so on. Whoever opens the devices adds them one by one, and is told after
/// each which file comes next.
pub struct ChainBuilder<D> {
    layers: Vec<Qcow2Reader<D>>,
    writable: bool,
}

/// The image `layers[i]`, with the rest of the layers behind it.
pub open spec fn chained(layers: Seq<Image>, i: int) -> Image
    decreases layers.len() - i,
{
    if i + 1 < layers.len() {
        Image { backing: Some(Box::new(chained(layers, i + 1))), ..layers[i] }
    } else {
        layers[i]
    }
}

impl<D: BlockDevice> ChainBuilder<D> {
    /// The images that have been added, each with nothing behind it.
    pub closed spec fn layers(&self) -> Seq<Image> {
        Seq::new(self.layers@.len(), |i: int| self.layers@[i]@)
    }

    /// The devices that have been added, in the order of the images.
    pub closed spec fn devices(&self) -> Seq<D> {
        Seq::new(self.layers@.len(), |i: int| self.layers@[i].dev)
    }

    /// Whether the first image is to be written.
    pub closed spec fn opens_writable(&self) -> bool {
        self.writable
    }

    /// What holds of every chain that is being opened.
    pub closed spec fn inv(&self) -> bool {
        &&& self.layers@.len() <= MAX_BACKING_DEPTH
        &&& forall|i: int|
            0 <= i < self.layers@.len() ==> (#[trigger] self.layers@[i]).inv()
                && self.layers@[i].backing is None && self.layers@[i].writable == (self.writable
                && i == 0)
    }

    /// Whether every device that has been added serves each request that it can.
    pub closed spec fn dependable(&self) -> bool {
        forall|i: int| 0 <= i < self.layers@.len() ==> (#[trigger] self.layers@[i]).dependable()
    }

    /// An empty chain. With `writable`, the image at its front is opened to be
    /// written; the ones behind it never are.
    pub fn new(writable: bool) -> (c: Self)
        ensures
            c.inv(),
            c.layers() == Seq::<Image>::empty(),
            c.devices() == Seq::<D>::empty(),
            c.opens_writable() == writable,
            c.dependable(),
    {
        let c = ChainBuilder { layers: Vec::new(), writable };
        assert(c.layers() =~= Seq::<Image>::empty());
        assert(c.devices() =~= Seq::<D>::empty());
        c
    }

    /// Adds the next image of the chain. Returns the name of the file behind it, or
    /// nothing if the chain ends here.
    pub fn add_layer(&mut self, dev: D) -> (r: Result<Option<String>, Error>)
        requires
            old(self).inv(),
        ensures
            final(self).inv(),
            final(self).opens_writable() == old(self).opens_writable(),
            r is Err ==> final(self).layers() == old(self).layers() && final(self).devices() == old(
                self,
            ).devices(),
            r is Ok ==> final(self).devices() == old(self).devices().push(dev),
            old(self).layers().len() >= MAX_BACKING_DEPTH ==> r == Err::<Option<String>, Error>(
                Error::BackingTooDeep,
            ),
            r matches Ok(name) ==> old(self).layers().len() < MAX_BACKING_DEPTH && (exists|
                head: Seq<u8>,
            | #[trigger]
                is_head(dev.contents(), head) && open_refusal(
                    head,
                    dev.contents().len() as int,
                    old(self).opens_writable() && old(self).layers().len() == 0,
                ) is None && layer_added(
                    old(self).layers(),
                    final(self).layers(),
                    lone_image(dev.contents(), head),
                    name,
                )),
            dev.dependable() && old(self).layers().len() < MAX_BACKING_DEPTH ==> layer_opens_as(
                dev.contents(),
                old(self).opens_writable() && old(self).layers().len() == 0,
                r,
            ),
            dev.dependable() && old(self).dependable() ==> final(self).dependable(),
    {
        if self.layers.len() >= MAX_BACKING_DEPTH as usize {
            return Err(Error::BackingTooDeep);
        }
        let writable: bool = self.writable && self.layers.len() == 0;
        match Qcow2Reader::open_named(dev, writable) {
            Ok((layer, name)) => {
                let ghost img = layer@;
                self.layers.push(layer);
                assert(self.layers() =~= old(self).layers().push(img));
                assert(self.devices() =~= old(self).devices().push(dev));
                Ok(name)
            },
            Err(e) => Err(e),
        }
    }

    /// Puts the chain together; nothing if no image has been added. The devices are
    /// those that have been added, and none of them was asked to write or to flush.
    pub fn finish(self) -> (r: Option<Qcow2Reader<D>>)
        requires
            self.inv(),
        ensures
            r is None <==> self.layers().len() == 0,
            r matches Some(x) ==> x.inv() && x@ == chained(self.layers(), 0)
                && x.opened_writable() == self.opens_writable(),
            r matches Some(x) ==> seq![x.device()] + x.devices_behind() == self.devices(),
            r matches Some(x) ==> self.dependable() ==> x.dependable(),
    {
        let ghost devices = self.devices();
        let ghost all = self.layers();
        let ghost parts = self.layers@;
        let ghost writable = self.writable;
        let ghost dependable = self.dependable();
        let mut layers: Vec<Qcow2Reader<D>> = self.layers;
        let mut front: Qcow2Reader<D> = match layers.pop() {
            Some(x) => x,
            None => {
                return None;
            },
        };
        while layers.len() > 0
            invariant
                layers@.len() < parts.len(),
                layers@ == parts.subrange(0, layers@.len() as int),
                all == Seq::new(parts.len(), |i: int| parts[i]@),
                front.inv(),
                front@ == chained(all, layers@.len() as int),
                devices == Seq::new(parts.len(), |i: int| parts[i].dev),
                seq![front.dev] + front.devices_behind() == devices.skip(layers@.len() as int),
                front.writable == (writable && layers@.len() == 0),
                dependable ==> front.dependable(),
                dependable ==> (forall|i: int|
                    0 <= i < parts.len() ==> (#[trigger] parts[i]).dependable()),
                forall|i: int|
                    0 <= i < parts.len() ==> (#[trigger] parts[i]).inv() && parts[i].backing is None
                        && parts[i].writable == (writable && i == 0),
            decreases layers@.len(),
        {
            let ghost n = layers@.len() as int;
            if let Some(mut x) = layers.pop() {
                assert(x == parts[n - 1]);
                let ghost behind = front;
                x.backing = Some(Box::new(front));
                front = x;
                assert(front.devices_behind() == seq![behind.dev] + behind.devices_behind());
                assert(devices.skip(n - 1) =~= seq![devices[n - 1]] + devices.skip(n));
            }
        }
        assert(devices.skip(0) =~= devices);
        Some(front)
    }
}

/// `after` are the layers after `img` has been added to `before`, and `name` is what
/// it names as its backing file.
pub open spec fn layer_added(
    before: Seq<Image>,
    after: Seq<Image>,
    img: Image,
    name: Option<String>,
) -> bool {
    &&& after == before.push(img)
    &&& names(img, name)
}

/// `r` is what comes of adding an image on a device that holds `s`, and that serves
/// every request.
pub open spec fn layer_opens_as(
    s: Seq<u8>,
    writable: bool,
    r: Result<Option<String>, Error>,
) -> bool {
    let img = lone_image(s, whole_head(s));
    if s.len() < MIN_HEAD_BYTES {
        r matches Err(e) && e is Io
    } else if let Some(e) = open_refusal(whole_head(s), s.len() as int, writable) {
        r == Err::<Option<String>, Error>(e)
    } else if !img.header.names_backing() {
        r == Ok::<Option<String>, Error>(None)
    } else if let Some(e) = img.header.backing_name_refusal() {
        r == Err::<Option<String>, Error>(e)
    } else if img.header.backing_file_offset + img.header.backing_file_size > s.len() {
        r matches Err(e) && e is Io
    } else if !valid_utf8(backing_name_bytes(img)) {
        r == Err::<Option<String>, Error>(Error::BadBackingPath)
    } else {
        r matches Ok(Some(name)) && name@ == decode_utf8(backing_name_bytes(img))
    }
}

/// `r` is what comes of opening one image on a device that holds `s`, and that
/// serves every request.
pub open spec fn opens_as<D: BlockDevice>(
    s: Seq<u8>,
    writable: bool,
    r: Result<Qcow2Reader<D>, Error>,
) -> bool {
    if s.len() < MIN_HEAD_BYTES {
        r matches Err(e) && e is Io
    } else {
        match open_refusal(whole_head(s), s.len() as int, writable) {
            Some(e) => r == Err::<Qcow2Reader<D>, Error>(e),
            None => r matches Ok(x) && x@ == lone_image(s, whole_head(s)),
        }
    }
}

/// As [`opens_as`], for an image that has to stand alone.
pub open spec fn opens_alone_as<D: BlockDevice>(
    s: Seq<u8>,
    writable: bool,
    r: Result<Qcow2Reader<D>, Error>,
) -> bool {
    if s.len() >= MIN_HEAD_BYTES && open_refusal(whole_head(s), s.len() as int, writable) is None
        && header_fields(whole_head(s)).names_backing() {
        r == Err::<Qcow2Reader<D>, Error>(
            Error::Unsupported(
                "image references a backing file; open by path to resolve the chain",
            ),
        )
    } else {
        opens_as(s, writable, r)
    }
}

} // verus!
