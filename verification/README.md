# qcow2

QCOW2 disk images, read and written by verified code. The library is written in
Verus: what each function does is stated in its contract and proved.

- Versions 2 and 3 of the header.
- Plain clusters, clusters compressed with zlib or zstd, sparse and zero clusters.
- Chains of backing files, with copy-up on write.
- Allocation of clusters, reference counts, and copy-on-write of what an internal
  snapshot holds.

## Layout

```
src/
  image.rs         what an image means: the bytes of the virtual disk
  header.rs        the header, and what is refused
  entry.rs         entries of the L1 and L2 tables
  codec.rs         compressed clusters
  zstd.rs          how far a zstd frame can make its decoder go
  device.rs        what an image lies on
  open.rs          opening one image, or a chain of them
  reader.rs        reading
  extents.rs       which parts of the disk hold data
  refcount.rs      reference counts and allocation
  consistency.rs   when tables and counts agree, and what keeps them so
  room.rs          how many clusters are left
  writer.rs        writing
    effects.rs     what the steps of a write do to an image
    needs.rs       how many clusters a write takes
    order.rs       what a write asks of the device, in which order
    outcome.rs     what comes of that
  laws.rs          what holds of the library as a whole
  cli.rs           what the command-line inspector reads and shows
app/               the inspector, the C interface, and files as devices
tests/             images built byte by byte
```

## Use

```rust
use qcow2::{MemDevice, Qcow2Reader};

let mut disk = Qcow2Reader::open_rw_on_device(MemDevice::new(bytes))?;
let mut buf = vec![0u8; 4096];
disk.read_at(0, &mut buf)?;
disk.write_at(512, b"hello")?;
disk.flush()?;
```

## What is promised

`image.rs` says what byte `v` of the virtual disk is. A read gives those bytes. A
write to an image whose tables and counts agree changes the bytes that it names and
no others, keeps tables and counts in agreement, and leaves alone every cluster that
something else, such as a snapshot, holds. On a device that serves what it is asked,
every count goes with the references, so that nothing leaks; the one exception is a
compressed cluster that lies in more than one cluster of the file. A write that fails,
on a device that does not tear a write, leaves an image that can be opened again, with
everything outside the written range what it was; at worst a cluster is counted and not
used.

A write succeeds where every device serves what it can and there is one free cluster for
each cluster of the disk that cannot be written in its place, and one for each L2 table
that is missing or shared. Whatever comes of an operation, on any device, bytes change
only where it asked the device to write; the files behind an image are never written.

A write inside one cluster that succeeds is read back on every device. One over more
clusters is, too, unless the device tears the write of a count that is given up: that is
not reported, and the next allocation goes by what was torn.

What is taken on trust are the decoders of `flate2` and `ruzstd`, a few functions of
the standard library, and that a device does what its contract says.
