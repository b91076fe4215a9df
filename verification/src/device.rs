//! Sector-granular block storage.
//!
//! `BlockDevice` holds the raw 512-byte sectors of one drive and plays the
//! role the hardware transfer layer plays in the running kernel: everything
//! above it addresses whole sectors by LBA. Its word-granular `read` and
//! `write` mirror the PIO data-port interface (256 16-bit words per sector);
//! the byte-granular accessors serve the volume layer.

use crate::codec::{bytes_to_sector, sector_to_bytes, words_to_bytes};
use vstd::assert_seqs_equal;
use vstd::prelude::*;

verus! {

/// Failures of the storage layer, mirroring what the ATA transfer path
/// can report: a drive error, and a caller buffer whose length does not
/// match the requested sector count. (A missing drive shows itself only
/// on IDENTIFY, which is the hardware port layer's affair.)
#[derive(Clone, Copy, Debug, PartialEq, Eq, Structural)]
pub enum DeviceError {
    /// The controller reported ERR, or the access lies outside the medium.
    DriveError,
    /// The caller's buffer length does not equal `sector_count * 256` words.
    SizeMismatch,
}

/// One drive's contents, sector-addressed.
pub struct BlockDevice {
    bytes: Vec<u8>,
}

impl View for BlockDevice {
    type V = Seq<u8>;

    closed spec fn view(&self) -> Seq<u8> {
        self.bytes@
    }
}

/// `d` with the `w.len()` bytes starting at `at` replaced by `w`.
pub open spec fn spec_write_range(d: Seq<u8>, at: int, w: Seq<u8>) -> Seq<u8> {
    Seq::new(d.len(), |i: int| if at <= i < at + w.len() { w[i - at] } else { d[i] })
}

impl BlockDevice {
    /// The device holds whole sectors and its sector count fits the 28-bit
    /// era's 32-bit addressing.
    pub open spec fn wf(&self) -> bool {
        &&& self@.len() % 512 == 0
        &&& self@.len() / 512 <= u32::MAX
    }

    /// A blank (zero-filled) device of `total_sectors` sectors.
    pub fn new(total_sectors: u32) -> (d: BlockDevice)
        requires
            512 * (total_sectors as int) <= usize::MAX,
        ensures
            d.wf(),
            d@ =~= Seq::new(512 * (total_sectors as nat), |i: int| 0u8),
            d@.len() == 512 * total_sectors,
    {
        let n: usize = 512 * (total_sectors as usize);
        let bytes: Vec<u8> = vec![0u8; n];
        proof {
            assert(512 * (total_sectors as int) % 512 == 0) by (nonlinear_arith);
            assert(512 * (total_sectors as int) / 512 == total_sectors as int) by (nonlinear_arith);
        }
        BlockDevice { bytes }
    }

    /// Adopts a raw image. Fails with `SizeMismatch` unless the image is a
    /// whole number of 512-byte sectors and small enough to address.
    pub fn from_bytes(bytes: Vec<u8>) -> (r: Result<BlockDevice, DeviceError>)
        ensures
            match r {
                Ok(d) => d.wf() && d@ == bytes@,
                Err(e) => e == DeviceError::SizeMismatch && !(bytes@.len() % 512 == 0 && bytes@.len()
                    / 512 <= u32::MAX),
            },
            (bytes@.len() % 512 == 0 && bytes@.len() / 512 <= u32::MAX) ==> r is Ok,
    {
        if bytes.len() % 512 != 0 {
            return Err(DeviceError::SizeMismatch);
        }
        if bytes.len() / 512 > u32::MAX as usize {
            return Err(DeviceError::SizeMismatch);
        }
        Ok(BlockDevice { bytes })
    }

    /// How many sectors the device holds.
    pub fn total_sectors(&self) -> (n: u32)
        requires
            self.wf(),
        ensures
            n == self@.len() / 512,
    {
        (self.bytes.len() / 512) as u32
    }

    /// The 512 bytes of sector `lba`.
    pub fn read_sector_bytes(&self, lba: u32) -> (r: Vec<u8>)
        requires
            self.wf(),
            512 * (lba as int) + 512 <= self@.len(),
        ensures
            r@ == self@.subrange(512 * (lba as int), 512 * (lba as int) + 512),
    {
        let _len: usize = self.bytes.len();
        let base: usize = 512 * (lba as usize);
        let mut r: Vec<u8> = Vec::new();
        let mut j: usize = 0;
        while j < 512
            invariant
                j <= 512,
                base == 512 * (lba as int),
                base + 512 <= self@.len(),
                r@ == self@.subrange(base as int, base + j),
            decreases 512 - j,
        {
            r.push(self.bytes[base + j]);
            proof {
                assert_seqs_equal!(r@ == self@.subrange(base as int, base + j + 1));
            }
            j = j + 1;
        }
        r
    }

    /// Replaces the 512 bytes of sector `lba` with `data`.
    pub fn write_sector_bytes(&mut self, lba: u32, data: &Vec<u8>)
        requires
            old(self).wf(),
            data@.len() == 512,
            512 * (lba as int) + 512 <= old(self)@.len(),
        ensures
            final(self)@ =~= spec_write_range(old(self)@, 512 * (lba as int), data@),
            final(self).wf(),
    {
        let _len: usize = self.bytes.len();
        let base: usize = 512 * (lba as usize);
        let mut j: usize = 0;
        while j < 512
            invariant
                j <= 512,
                base == 512 * (lba as int),
                base + 512 <= self@.len(),
                data@.len() == 512,
                self@.len() == old(self)@.len(),
                forall|i: int|
                    0 <= i < self@.len() ==> self@[i] == if base <= i < base + j {
                        data@[i - base]
                    } else {
                        old(self)@[i]
                    },
            decreases 512 - j,
        {
            self.bytes[base + j] = data[j];
            j = j + 1;
        }
    }

    /// Reads `sectors` consecutive sectors starting at `lba` into `target`
    /// as data-port words. `target` must hold exactly `sectors * 256` words;
    /// a read beyond the end of the medium fails as the drive would.
    pub fn read(&self, lba: u32, sectors: u8, target: &mut Vec<u16>) -> (r: Result<
        (),
        DeviceError,
    >)
        requires
            self.wf(),
        ensures
            r == Err::<(), DeviceError>(DeviceError::SizeMismatch) <==> old(target)@.len() != 256 * (
            sectors as int),
            r == Err::<(), DeviceError>(DeviceError::DriveError) <==> old(target)@.len() == 256 * (
            sectors as int) && 512 * (lba as int + sectors as int) > self@.len(),
            r is Ok <==> old(target)@.len() == 256 * (sectors as int) && 512 * (lba as int
                + sectors as int) <= self@.len(),
            r is Ok ==> words_to_bytes(final(target)@) == self@.subrange(
                512 * (lba as int),
                512 * (lba as int + sectors as int),
            ) && final(target)@.len() == 256 * (sectors as int),
            r is Err ==> final(target)@ == old(target)@,
    {
        if target.len() != 256 * (sectors as usize) {
            return Err(DeviceError::SizeMismatch);
        }
        if 512 * (lba as u64 + sectors as u64) > self.bytes.len() as u64 {
            return Err(DeviceError::DriveError);
        }
        let mut bytes: Vec<u8> = Vec::new();
        let mut s: u32 = 0;
        while s < sectors as u32
            invariant
                s <= sectors as u32,
                self.wf(),
                512 * (lba as int + sectors as int) <= self@.len(),
                bytes@ == self@.subrange(512 * (lba as int), 512 * (lba as int + s as int)),
            decreases sectors as u32 - s,
        {
            let mut sec = self.read_sector_bytes(lba + s);
            bytes.append(&mut sec);
            proof {
                assert_seqs_equal!(
                    bytes@ == self@.subrange(512 * (lba as int), 512 * (lba as int + s as int + 1))
                );
            }
            s = s + 1;
        }
        let words = bytes_to_sector(&bytes);
        *target = words;
        Ok(())
    }

    /// Writes `sectors` consecutive sectors of data-port words starting at
    /// `lba`. Mirror of `read`, including the length check.
    pub fn write(&mut self, lba: u32, sectors: u8, data: &Vec<u16>) -> (r: Result<(), DeviceError>)
        requires
            old(self).wf(),
        ensures
            r == Err::<(), DeviceError>(DeviceError::SizeMismatch) <==> data@.len() != 256 * (
            sectors as int),
            r == Err::<(), DeviceError>(DeviceError::DriveError) <==> data@.len() == 256 * (
            sectors as int) && 512 * (lba as int + sectors as int) > old(self)@.len(),
            r is Ok <==> data@.len() == 256 * (sectors as int) && 512 * (lba as int + sectors as int)
                <= old(self)@.len(),
            r is Ok ==> final(self)@ =~= spec_write_range(
                old(self)@,
                512 * (lba as int),
                words_to_bytes(data@),
            ),
            r is Err ==> final(self)@ == old(self)@,
            final(self).wf(),
    {
        if data.len() != 256 * (sectors as usize) {
            return Err(DeviceError::SizeMismatch);
        }
        if 512 * (lba as u64 + sectors as u64) > self.bytes.len() as u64 {
            return Err(DeviceError::DriveError);
        }
        let bytes = sector_to_bytes(data);
        let ghost base: int = 512 * (lba as int);
        let mut s: u32 = 0;
        while s < sectors as u32
            invariant
                s <= sectors as u32,
                self.wf(),
                base == 512 * (lba as int),
                bytes@ == words_to_bytes(data@),
                bytes@.len() == 512 * (sectors as int),
                512 * (lba as int + sectors as int) <= old(self)@.len(),
                self@.len() == old(self)@.len(),
                forall|i: int|
                    0 <= i < self@.len() ==> self@[i] == if base <= i < base + 512 * (s as int) {
                        bytes@[i - base]
                    } else {
                        old(self)@[i]
                    },
            decreases sectors as u32 - s,
        {
            let mut sec: Vec<u8> = Vec::new();
            let mut j: usize = 0;
            while j < 512
                invariant
                    j <= 512,
                    bytes@.len() == 512 * (sectors as int),
                    s < sectors as u32,
                    sec@ == bytes@.subrange(512 * (s as int), 512 * (s as int) + j as int),
                decreases 512 - j,
            {
                sec.push(bytes[512 * (s as usize) + j]);
                proof {
                    assert_seqs_equal!(
                        sec@ == bytes@.subrange(512 * (s as int), 512 * (s as int) + j + 1)
                    );
                }
                j = j + 1;
            }
            self.write_sector_bytes(lba + s, &sec);
            s = s + 1;
        }
        Ok(())
    }
}

} // verus!
