//! Verified core of a small bare-metal kernel, centred on its storage
//! stack: a sector-granular block device holding 512-byte sectors, the
//! 16-bit-word/8-bit-byte bridging the ATA data port imposes, the pure
//! computations of the ATA PIO protocol, and a FAT32 volume driver
//! (directory listing, file lookup, file read, file create with
//! allocation rollback) layered on raw sectors. Beside the storage stack
//! stand the kernel's two other pieces of plain logic: the interrupt
//! vector numbering and the keyboard scancode queue.
//!
//! The hardware half of the driver — port reads and writes, busy-wait
//! polling — cannot be verified and lives with the embedding kernel; the
//! library works on the sectors those transfers carry and states in its
//! contracts exactly what each operation reads and writes.

pub mod ata;
pub mod codec;
pub mod device;
pub mod dir;
pub mod fat;
pub mod interrupts;
pub mod keyboard;
