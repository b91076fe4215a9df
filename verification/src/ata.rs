//! Pure computations of the ATA PIO protocol.
//!
//! The running kernel drives the controller through port reads and writes
//! that cannot be verified; everything the protocol *computes* — register
//! bytes for a 28-bit LBA, status-byte classification, the IDENTIFY
//! geometry words — is here, so the port loop around it stays free of
//! logic.

use vstd::prelude::*;

verus! {

/// Standard sector size for ATA drives (512 bytes).
pub const SECTOR_SIZE: usize = 512;

/// Words transferred through the data port per sector.
pub const SECTOR_WORDS: usize = 256;

/// Read-sectors command byte.
pub const CMD_READ_SECTORS: u8 = 0x20;

/// Write-sectors command byte.
pub const CMD_WRITE_SECTORS: u8 = 0x30;

/// Identify command byte.
pub const CMD_IDENTIFY: u8 = 0xEC;

/// Status-register bit: controller busy.
pub const STATUS_BSY: u8 = 0x80;

/// Status-register bit: data request ready.
pub const STATUS_DRQ: u8 = 0x08;

/// Status-register bit: error.
pub const STATUS_ERR: u8 = 0x01;

/// The two ATA buses and their base I/O ports.
#[derive(Clone, Copy, Debug, PartialEq, Eq, Structural)]
pub enum Bus {
    Primary,
    Secondary,
}

impl Bus {
    /// Base I/O port of the bus: 0x1F0 for the primary, 0x170 for the
    /// secondary. The eight task-file registers follow at offsets 0..=7.
    pub fn base_port(self) -> (p: u16)
        ensures
            p == (if self is Primary {
                0x1f0u16
            } else {
                0x170u16
            }),
    {
        match self {
            Bus::Primary => 0x1f0,
            Bus::Secondary => 0x170,
        }
    }
}

/// What one status-register read tells the polling loop.
#[derive(Clone, Copy, Debug, PartialEq, Eq, Structural)]
pub enum StatusClass {
    /// ERR set: abort the transfer.
    Failed,
    /// BSY clear and DRQ set: a sector of data may be transferred.
    Ready,
    /// Still busy or not yet ready: poll again.
    Busy,
}

/// Whether the busy bit is set in a status byte.
pub fn status_busy(status: u8) -> (r: bool)
    ensures
        r == (status & STATUS_BSY != 0),
{
    status & STATUS_BSY != 0
}

/// Whether a status byte read right after IDENTIFY shows that no drive is
/// attached: a floating bus reads as exactly zero.
pub fn drive_absent(status: u8) -> (r: bool)
    ensures
        r == (status == 0),
{
    status == 0
}

/// Classifies a status byte the way the transfer polling loop does: an ERR
/// bit fails the transfer, otherwise BSY must be clear and DRQ set before
/// data may move, and anything else means polling goes on.
pub fn classify_status(status: u8) -> (r: StatusClass)
    ensures
        r is Failed <==> status & STATUS_ERR != 0,
        r is Ready <==> status & STATUS_ERR == 0 && status & STATUS_BSY == 0 && status & STATUS_DRQ
            != 0,
        r is Busy <==> status & STATUS_ERR == 0 && (status & STATUS_BSY != 0 || status & STATUS_DRQ
            == 0),
{
    if status & STATUS_ERR != 0 {
        StatusClass::Failed
    } else if status & STATUS_BSY == 0 && status & STATUS_DRQ != 0 {
        StatusClass::Ready
    } else {
        StatusClass::Busy
    }
}

/// Register bytes that address `lba` on the given drive: the drive-select
/// byte (LBA mode bits, the master/slave bit, and the address's top four
/// bits) and the low, mid and high address bytes. Together the four carry
/// exactly the low 28 bits of `lba`.
pub fn lba_to_registers(is_master: bool, lba: u32) -> (regs: (u8, u8, u8, u8))
    ensures
        regs.0 == ((if is_master {
            0xe0u8
        } else {
            0xf0u8
        }) | (((lba >> 24) & 0xf) as u8)),
        regs.1 == lba as u8,
        regs.2 == (lba >> 8) as u8,
        regs.3 == (lba >> 16) as u8,
        (regs.1 as int) + 256 * (regs.2 as int) + 65536 * (regs.3 as int) + 16777216 * ((regs.0
            & 0xf) as int) == lba & 0x0fffffff,
{
    let select: u8 = if is_master { 0xe0 } else { 0xf0 };
    let select: u8 = select | ((lba >> 24) & 0xf) as u8;
    let low: u8 = lba as u8;
    let mid: u8 = (lba >> 8) as u8;
    let high: u8 = (lba >> 16) as u8;
    proof {
        let s: u8 = if is_master { 0xe0 } else { 0xf0 };
        assert((lba as u8) as int + 256 * (((lba >> 8) as u8) as int) + 65536 * (((lba
            >> 16) as u8) as int) + 16777216 * ((((s | (((lba >> 24) & 0xf) as u8))
            & 0xf)) as int) == lba & 0x0fffffff) by (bit_vector)
            requires
                s == 0xe0u8 || s == 0xf0u8,
        ;
    }
    (select, low, mid, high)
}

/// Drive-select byte for the IDENTIFY command: 0xA0 for the master device,
/// 0xB0 for the slave.
pub fn identify_select_byte(is_master: bool) -> (b: u8)
    ensures
        b == (if is_master {
            0xa0u8
        } else {
            0xb0u8
        }),
{
    if is_master {
        0xa0
    } else {
        0xb0
    }
}

/// Total LBA28 user-addressable sectors from an IDENTIFY response: word 60
/// holds the low 16 bits and word 61 the high 16 bits.
pub fn total_sectors_from_identify(data: &Vec<u16>) -> (n: u32)
    requires
        data@.len() == 256,
    ensures
        n == data@[60] as int + 0x10000 * (data@[61] as int),
{
    let low = data[60];
    let high = data[61];
    proof {
        assert(((low as u32) | ((high as u32) << 16)) == (low as int + 0x10000 * (
        high as int)) as u32) by (bit_vector);
    }
    (low as u32) | ((high as u32) << 16)
}

} // verus!
