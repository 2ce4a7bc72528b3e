//! The device under an image.

use crate::bytes::{copy_into, overwrite};
use crate::error::DeviceError;
use vstd::pervasive::arbitrary;
use vstd::prelude::*;

verus! {

/// `b` differs from `a` at most in the bytes from `lo` up to `hi`, and past the
/// end of `a`.
pub open spec fn differs_only_within(a: Seq<u8>, b: Seq<u8>, lo: int, hi: int) -> bool {
    &&& a.len() <= b.len()
    &&& forall|i: int| 0 <= i < a.len() && !(lo <= i < hi) ==> #[trigger] b[i] == a[i]
}

/// The first `n` bytes of `buf` are those that `s` holds from `off` on.
pub open spec fn read_out(s: Seq<u8>, off: int, buf: Seq<u8>, n: int) -> bool {
    &&& n > 0 ==> off + n <= s.len()
    &&& forall|i: int| 0 <= i < n ==> #[trigger] buf[i] == s[off + i]
}

/// What a device is asked to do that changes it.
pub enum Request {
    /// To lay `data` over the contents from `offset` on.
    Write { offset: int, data: Seq<u8> },
    /// To bring what was written to stable storage.
    Flush,
}

/// A request, and whether it was served.
pub struct Call {
    pub request: Request,
    pub served: bool,
}

/// The calls `log`, and then a write.
pub open spec fn with_write(log: Seq<Call>, offset: int, data: Seq<u8>, served: bool) -> Seq<Call> {
    log.push(Call { request: Request::Write { offset, data }, served })
}

/// The calls `log`, and then a flush.
pub open spec fn with_flush(log: Seq<Call>, served: bool) -> Seq<Call> {
    log.push(Call { request: Request::Flush, served })
}

/// The calls `log`, and then a write that is brought to stable storage.
pub open spec fn settled(log: Seq<Call>, offset: int, data: Seq<u8>) -> Seq<Call> {
    with_flush(with_write(log, offset, data, true), true)
}

/// The calls `before` are the first ones of `after`.
pub open spec fn extends(before: Seq<Call>, after: Seq<Call>) -> bool {
    &&& before.len() <= after.len()
    &&& forall|i: int| 0 <= i < before.len() ==> #[trigger] after[i] == before[i]
}

/// Every call that `after` has beyond `before` was served.
pub open spec fn all_served(before: Seq<Call>, after: Seq<Call>) -> bool {
    forall|i: int| before.len() <= i < after.len() ==> (#[trigger] after[i]).served
}

/// The call `c` is a write over byte `i` of a device.
pub open spec fn writes_over(c: Call, i: int) -> bool {
    c.request matches Request::Write { offset, data } && offset <= i < offset + data.len()
}

/// A device that held `before` after the calls `log` holds `after` after `calls`: they
/// go on from `log`, and of the bytes that it held only those have changed that one of
/// the calls since then writes over, served or not.
#[verifier::opaque]
pub open spec fn changed_by(
    before: Seq<u8>,
    log: Seq<Call>,
    after: Seq<u8>,
    calls: Seq<Call>,
) -> bool {
    &&& before.len() <= after.len()
    &&& extends(log, calls)
    &&& forall|i: int|
        0 <= i < before.len() && #[trigger] after[i] != before[i] ==> exists|j: int|
            log.len() <= j < calls.len() && #[trigger] writes_over(calls[j], i)
}

/// Without a call nothing has changed.
pub broadcast proof fn lemma_unchanged(s: Seq<u8>, log: Seq<Call>)
    ensures
        #[trigger] changed_by(s, log, s, log),
{
    reveal(changed_by);
}

/// What two runs of calls change, they change together.
pub broadcast proof fn lemma_changed_twice(
    s1: Seq<u8>,
    l1: Seq<Call>,
    s2: Seq<u8>,
    l2: Seq<Call>,
    s3: Seq<u8>,
    l3: Seq<Call>,
)
    requires
        #[trigger] changed_by(s1, l1, s2, l2),
        #[trigger] changed_by(s2, l2, s3, l3),
    ensures
        changed_by(s1, l1, s3, l3),
{
    reveal(changed_by);
    assert forall|i: int| 0 <= i < s1.len() && #[trigger] s3[i] != s1[i] implies exists|j: int|
        l1.len() <= j < l3.len() && #[trigger] writes_over(l3[j], i) by {
        if s2[i] != s1[i] {
            let j = choose|j: int| l1.len() <= j < l2.len() && #[trigger] writes_over(l2[j], i);
            assert(l3[j] == l2[j]);
            assert(writes_over(l3[j], i));
        } else {
            let j = choose|j: int| l2.len() <= j < l3.len() && #[trigger] writes_over(l3[j], i);
            assert(writes_over(l3[j], i));
        }
    }
}

/// A write changes what it writes over.
pub(crate) proof fn lemma_changed_by_write(
    before: Seq<u8>,
    log: Seq<Call>,
    after: Seq<u8>,
    offset: int,
    data: Seq<u8>,
    served: bool,
)
    requires
        differs_only_within(before, after, offset, offset + data.len()),
    ensures
        changed_by(before, log, after, with_write(log, offset, data, served)),
{
    reveal(changed_by);
    let calls = with_write(log, offset, data, served);
    assert forall|i: int| 0 <= i < before.len() && #[trigger] after[i]
        != before[i] implies exists|j: int|
        log.len() <= j < calls.len() && #[trigger] writes_over(calls[j], i) by {
        assert(writes_over(calls[log.len() as int], i));
    }
}

/// A flush changes nothing.
pub(crate) proof fn lemma_changed_by_flush(s: Seq<u8>, log: Seq<Call>, served: bool)
    ensures
        changed_by(s, log, s, with_flush(log, served)),
{
    reveal(changed_by);
}

/// A random-access store of bytes that an image lies on.
///
/// The device belongs to the image while it is open: its contents change through
/// [`BlockDevice::write_at`] alone. Any request may fail; what a device promises
/// beyond that it says with [`BlockDevice::dependable`] and
/// [`BlockDevice::atomic`].
///
/// The first seven functions describe a device, and are there for proofs only. A
/// device whose code is verified defines them; for any other one they can be left
/// out, and it is then up to its author that it does what is asked of the rest.
pub trait BlockDevice {
    /// The bytes that the device holds.
    open spec fn contents(&self) -> Seq<u8> {
        arbitrary()
    }

    /// The bytes on the medium of the device. What was written may differ from them
    /// until it is flushed.
    open spec fn stored(&self) -> Seq<u8> {
        arbitrary()
    }

    /// The writes and flushes that were asked of the device, in their order.
    open spec fn calls(&self) -> Seq<Call> {
        arbitrary()
    }

    /// What [`BlockDevice::is_writable`] answers.
    open spec fn accepts_writes(&self) -> bool {
        arbitrary()
    }

    /// Whether the device serves every request that it can: each read inside
    /// its contents, each write that ends no later than
    /// [`BlockDevice::write_limit`], and each flush. A device that may fail for
    /// reasons of its own answers `false`.
    open spec fn dependable(&self) -> bool {
        arbitrary()
    }

    /// Where the last byte that can be written ends.
    open spec fn write_limit(&self) -> int {
        arbitrary()
    }

    /// Whether a write that fails has either happened in full or not at all.
    open spec fn atomic(&self) -> bool {
        arbitrary()
    }

    /// Fills `buf` from the bytes that start at `offset`.
    fn read_at(&self, offset: u64, buf: &mut [u8]) -> (r: Result<(), DeviceError>)
        ensures
            final(buf)@.len() == old(buf)@.len(),
            r is Ok ==> read_out(self.contents(), offset as int, final(buf)@, final(buf)@.len() as int),
            r matches Err(DeviceError::ShortRead { got, .. }) ==> got <= final(buf)@.len()
                && read_out(self.contents(), offset as int, final(buf)@, got as int),
            self.dependable() && (old(buf)@.len() == 0 || offset + old(buf)@.len()
                <= self.contents().len()) ==> r is Ok,
            self.dependable() && r is Err ==> (r matches Err(DeviceError::ShortRead { got, .. })
                && got == (if offset < self.contents().len() {
                self.contents().len() - offset
            } else {
                0
            })),
    ;

    /// Lays `buf` over the contents from `offset` on. The device grows where
    /// the range ends past it.
    fn write_at(&mut self, offset: u64, buf: &[u8]) -> (r: Result<(), DeviceError>)
        ensures
            r is Ok ==> final(self).contents() == overwrite(
                old(self).contents(),
                offset as int,
                buf@,
            ),
            r is Err ==> differs_only_within(
                old(self).contents(),
                final(self).contents(),
                offset as int,
                offset + buf@.len(),
            ),
            r is Err && old(self).atomic() ==> final(self).contents() == old(self).contents()
                || final(self).contents() == overwrite(old(self).contents(), offset as int, buf@),
            old(self).dependable() && offset + buf@.len() <= old(self).write_limit() ==> r is Ok,
            final(self).calls() == with_write(old(self).calls(), offset as int, buf@, r is Ok),
            final(self).accepts_writes() == old(self).accepts_writes(),
            final(self).dependable() == old(self).dependable(),
            final(self).write_limit() == old(self).write_limit(),
            final(self).atomic() == old(self).atomic(),
    ;

    /// Brings what was written to stable storage.
    fn flush(&mut self) -> (r: Result<(), DeviceError>)
        ensures
            final(self).contents() == old(self).contents(),
            r is Ok ==> final(self).stored() == final(self).contents(),
            old(self).dependable() ==> r is Ok,
            final(self).calls() == with_flush(old(self).calls(), r is Ok),
            final(self).accepts_writes() == old(self).accepts_writes(),
            final(self).dependable() == old(self).dependable(),
            final(self).write_limit() == old(self).write_limit(),
            final(self).atomic() == old(self).atomic(),
    ;

    /// Whether writes are likely to be served.
    fn is_writable(&self) -> (b: bool)
        ensures
            b == self.accepts_writes(),
    ;

    /// How many bytes the device holds.
    fn size_bytes(&self) -> (n: u64)
        ensures
            n == self.contents().len(),
    ;
}

/// A device in memory. It serves every request, and grows as needed.
pub struct MemDevice {
    bytes: Vec<u8>,
    writable: bool,
    log: Ghost<Seq<Call>>,
}

impl MemDevice {
    /// A device that holds `bytes` and takes writes.
    pub fn new(bytes: Vec<u8>) -> (d: Self)
        ensures
            d.contents() == bytes@,
            d.accepts_writes(),
            d.dependable(),
            d.atomic(),
    {
        MemDevice { bytes, writable: true, log: Ghost(Seq::empty()) }
    }

    /// A device that holds `bytes` and takes no writes.
    pub fn read_only(bytes: Vec<u8>) -> (d: Self)
        ensures
            d.contents() == bytes@,
            !d.accepts_writes(),
            d.dependable(),
            d.atomic(),
    {
        MemDevice { bytes, writable: false, log: Ghost(Seq::empty()) }
    }

    /// The bytes that the device holds.
    pub fn bytes(&self) -> (b: &Vec<u8>)
        ensures
            b@ == self.contents(),
    {
        &self.bytes
    }

    /// Lays `buf` over the bytes from `offset` on.
    fn put(&mut self, offset: u64, buf: &[u8]) -> (r: Result<(), DeviceError>)
        ensures
            r is Ok ==> final(self).bytes@ == overwrite(old(self).bytes@, offset as int, buf@),
            r is Err ==> final(self).bytes == old(self).bytes,
            old(self).writable && offset + buf@.len() <= usize::MAX ==> r is Ok,
            final(self).writable == old(self).writable,
            final(self).log == old(self).log,
    {
        if !self.writable {
            return Err(DeviceError::ReadOnly);
        }
        let n: usize = buf.len();
        if n == 0 {
            return Ok(());
        }
        let room: u64 = usize::MAX as u64;
        if offset > room || n as u64 > room - offset {
            return Err(
                DeviceError::OutOfBounds { offset, len: n as u64, size: self.bytes.len() as u64 },
            );
        }
        let ghost before = self.bytes@;
        let end: usize = offset as usize + n;
        if self.bytes.len() < end {
            self.bytes.resize(end, 0u8);
        }
        copy_into(self.bytes.as_mut_slice(), offset as usize, buf);
        assert(self.bytes@ =~= overwrite(before, offset as int, buf@));
        Ok(())
    }

    /// Gives the bytes up.
    pub fn into_bytes(self) -> (b: Vec<u8>)
        ensures
            b@ == self.contents(),
    {
        self.bytes
    }
}

impl BlockDevice for MemDevice {
    closed spec fn contents(&self) -> Seq<u8> {
        self.bytes@
    }

    /// The medium is the memory that holds the bytes.
    open spec fn stored(&self) -> Seq<u8> {
        self.contents()
    }

    closed spec fn calls(&self) -> Seq<Call> {
        self.log@
    }

    closed spec fn accepts_writes(&self) -> bool {
        self.writable
    }

    open spec fn dependable(&self) -> bool {
        true
    }

    /// What a vector can hold, or nothing for a device that takes no writes.
    open spec fn write_limit(&self) -> int {
        if self.accepts_writes() {
            usize::MAX as int
        } else {
            -1
        }
    }

    open spec fn atomic(&self) -> bool {
        true
    }

    fn read_at(&self, offset: u64, buf: &mut [u8]) -> (r: Result<(), DeviceError>) {
        let want: usize = buf.len();
        let size: usize = self.bytes.len();
        let avail: u64 = if offset < size as u64 {
            size as u64 - offset
        } else {
            0
        };
        let got: usize = if avail < want as u64 {
            avail as usize
        } else {
            want
        };
        let mut i: usize = 0;
        while i < got
            invariant
                i <= got <= want,
                want == buf@.len(),
                got > 0 ==> offset + got <= self.bytes@.len(),
                size == self.bytes@.len(),
                forall|j: int| 0 <= j < i ==> #[trigger] buf@[j] == self.bytes@[offset + j],
            decreases got - i,
        {
            buf[i] = self.bytes[offset as usize + i];
            i = i + 1;
        }
        if got < want {
            return Err(DeviceError::ShortRead { offset, want, got });
        }
        Ok(())
    }

    fn write_at(&mut self, offset: u64, buf: &[u8]) -> (r: Result<(), DeviceError>) {
        let r = self.put(offset, buf);
        self.log = Ghost(with_write(self.log@, offset as int, buf@, r is Ok));
        r
    }

    fn flush(&mut self) -> (r: Result<(), DeviceError>) {
        self.log = Ghost(with_flush(self.log@, true));
        Ok(())
    }

    fn is_writable(&self) -> (b: bool) {
        self.writable
    }

    fn size_bytes(&self) -> (n: u64) {
        self.bytes.len() as u64
    }
}

} // verus!
