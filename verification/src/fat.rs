//! FAT32 volume driver.
//!
//! Interprets one FAT32 volume held on a [`BlockDevice`]: mounts the boot
//! parameter block, walks the file allocation table, lists the root
//! directory, reads files by following their cluster chains, and creates
//! files with a first-fit allocator that rolls every tentative mark back
//! when space runs out.
//!
//! All contracts speak about the device's byte view. A FAT entry for
//! cluster `c` occupies the four little-endian bytes at
//! `512 * fat_start_sector + 4 * c`; only its low 28 bits address a
//! cluster, and the top four bits are preserved by every write.

use crate::codec::{le16, le32, u32_byte};
use crate::device::{spec_write_range, BlockDevice};
use crate::dir::{
    bytes_as_chars, rec_attributes, rec_cluster, rec_ext, rec_is_end, rec_is_free,
    rec_is_long_name, rec_is_used, rec_name, rec_size, spec_ext83, spec_filename, spec_name83,
    spec_valid_83, seq_upper, DirectoryEntry, ATTR_ARCHIVE, NAME_END, NAME_FREE,
};
use vstd::assert_seqs_equal;
use vstd::prelude::*;
use vstd::string::StringSliceAdditionalSpecFns;

verus! {

/// Raw FAT values at or above this mark the end of a cluster chain.
pub const FAT_EOC: u32 = 0x0fff_fff8;

/// The end-of-chain value this driver writes.
pub const FAT_EOC_WRITE: u32 = 0x0fff_ffff;

/// Cluster numbers at or above this are reserved and never allocated.
pub const FAT_MAX_CLUSTER: u32 = 0x0fff_fff7;

/// Mask selecting the 28 significant bits of a FAT entry.
pub const FAT_ENTRY_MASK: u32 = 0x0fff_ffff;

/// Failures of the volume layer. Geometry the driver cannot interpret is
/// fatal to the mount; everything else leaves the volume usable.
#[derive(Clone, Copy, Debug, PartialEq, Eq, Structural)]
pub enum FatError {
    /// The boot sector does not describe a 512-byte-sector FAT32 volume
    /// this driver can address.
    UnsupportedGeometry,
    /// A file of that name already exists.
    FileExists,
    /// Allocation ran out of free clusters; every tentative mark was
    /// rolled back.
    NotEnoughFreeClusters,
    /// No free 32-byte slot in the first cluster of the root directory.
    RootDirectoryFull,
    /// The name does not fit the 8.3 form.
    InvalidName,
    /// Empty files are not supported.
    EmptyFile,
}

// --- Boot parameter block fields, by byte offset in sector 0 ---------------

/// Bytes per sector (offset 11); must be 512.
pub open spec fn bpb_bytes_per_sector(d: Seq<u8>) -> u32 {
    le16(d[11], d[12])
}

/// Sectors per cluster (offset 13).
pub open spec fn bpb_sectors_per_cluster(d: Seq<u8>) -> u8 {
    d[13]
}

/// Reserved sectors before the first FAT (offset 14); the FAT region
/// starts here.
pub open spec fn bpb_reserved_sectors(d: Seq<u8>) -> u32 {
    le16(d[14], d[15])
}

/// Number of FAT copies (offset 16).
pub open spec fn bpb_fat_count(d: Seq<u8>) -> u8 {
    d[16]
}

/// Sectors per FAT copy (offset 36).
pub open spec fn bpb_sectors_per_fat(d: Seq<u8>) -> u32 {
    le32(d[36], d[37], d[38], d[39])
}

/// First cluster of the root directory (offset 44).
pub open spec fn bpb_root_cluster(d: Seq<u8>) -> u32 {
    le32(d[44], d[45], d[46], d[47])
}

/// First data sector: the reserved region followed by every FAT copy.
pub open spec fn bpb_data_start(d: Seq<u8>) -> int {
    bpb_reserved_sectors(d) + bpb_fat_count(d) * bpb_sectors_per_fat(d)
}

/// Whether the boot sector describes a volume this driver can use: 512-byte
/// sectors, at least one sector per cluster, at least one reserved sector,
/// at least one FAT copy that fits before the data region, a FAT large
/// enough to map every addressable cluster, and a root cluster that lies in
/// the data region.
pub open spec fn spec_geometry_ok(d: Seq<u8>) -> bool {
    let total = d.len() / 512;
    let data_start = bpb_data_start(d);
    let spc = bpb_sectors_per_cluster(d) as int;
    let max_cluster = 2 + (total - data_start) / spc;
    &&& d.len() >= 512
    &&& bpb_bytes_per_sector(d) == 512
    &&& spc >= 1
    &&& bpb_reserved_sectors(d) >= 1
    &&& bpb_fat_count(d) >= 1
    &&& bpb_sectors_per_fat(d) >= 1
    &&& data_start <= total
    &&& max_cluster <= 128 * (data_start - bpb_reserved_sectors(d))
    &&& max_cluster <= FAT_MAX_CLUSTER + 1
    &&& 2 <= bpb_root_cluster(d) < max_cluster
}

// --- Directory records within a block of bytes -----------------------------

/// The 32-byte record `k` of a directory data block.
pub open spec fn dir_rec(data: Seq<u8>, k: int) -> Seq<u8> {
    data.subrange(32 * k, 32 * k + 32)
}

/// How many whole records a directory data block holds.
pub open spec fn dir_rec_count(data: Seq<u8>) -> int {
    data.len() as int / 32
}

/// Display names of the used records from record `k` on, stopping at the
/// end sentinel: deleted records and long-name fragments are skipped.
pub open spec fn spec_scan_names(data: Seq<u8>, k: int) -> Seq<Seq<u8>>
    decreases dir_rec_count(data) - k,
{
    if k < 0 || k >= dir_rec_count(data) {
        Seq::empty()
    } else {
        let r = dir_rec(data, k);
        if rec_is_end(r) {
            Seq::empty()
        } else if rec_is_used(r) {
            seq![spec_filename(rec_name(r), rec_ext(r))] + spec_scan_names(data, k + 1)
        } else {
            spec_scan_names(data, k + 1)
        }
    }
}

/// Whether the scan from record `k` on reaches the end sentinel.
pub open spec fn spec_scan_hits_end(data: Seq<u8>, k: int) -> bool
    decreases dir_rec_count(data) - k,
{
    if k < 0 || k >= dir_rec_count(data) {
        false
    } else if rec_is_end(dir_rec(data, k)) {
        true
    } else {
        spec_scan_hits_end(data, k + 1)
    }
}

/// Whether a record's display name equals the queried name up to ASCII
/// case.
pub open spec fn rec_matches(r: Seq<u8>, q: Seq<u8>) -> bool {
    seq_upper(spec_filename(rec_name(r), rec_ext(r))) == seq_upper(q)
}

/// The first used record from `k` on, before the end sentinel, whose
/// display name equals `q` up to ASCII case.
pub open spec fn spec_scan_find(data: Seq<u8>, q: Seq<u8>, k: int) -> Option<Seq<u8>>
    decreases dir_rec_count(data) - k,
{
    if k < 0 || k >= dir_rec_count(data) {
        None
    } else {
        let r = dir_rec(data, k);
        if rec_is_end(r) {
            None
        } else if rec_is_used(r) && rec_matches(r, q) {
            Some(r)
        } else {
            spec_scan_find(data, q, k + 1)
        }
    }
}

/// A scan that found nothing matched no used record it reached: every
/// record before `k` (none of them the end sentinel) is unused or names
/// another file.
pub proof fn lemma_scan_none_prefix(data: Seq<u8>, q: Seq<u8>, from: int, k: int)
    requires
        0 <= from <= k <= dir_rec_count(data),
        spec_scan_find(data, q, from) is None,
        forall|j: int| from <= j < k ==> !rec_is_end(#[trigger] dir_rec(data, j)),
    ensures
        forall|j: int|
            from <= j < k ==> !(rec_is_used(#[trigger] dir_rec(data, j)) && rec_matches(
                dir_rec(data, j),
                q,
            )),
    decreases k - from,
{
    if from < k {
        lemma_scan_none_prefix(data, q, from + 1, k);
    }
}

/// A scan finds the used, matching record at `k` when every record before
/// it is no sentinel and no match.
pub proof fn lemma_scan_finds_at(data: Seq<u8>, q: Seq<u8>, from: int, k: int)
    requires
        0 <= from <= k < dir_rec_count(data),
        forall|j: int|
            from <= j < k ==> !rec_is_end(#[trigger] dir_rec(data, j)) && !(rec_is_used(
                dir_rec(data, j),
            ) && rec_matches(dir_rec(data, j), q)),
        rec_is_used(dir_rec(data, k)),
        rec_matches(dir_rec(data, k), q),
    ensures
        spec_scan_find(data, q, from) == Some(dir_rec(data, k)),
    decreases k - from,
{
    if from < k {
        lemma_scan_finds_at(data, q, from + 1, k);
    }
}

/// Whether byte position `idx` lies inside the FAT entry of one of the
/// clusters in `cs`, on a volume whose FAT region starts at sector
/// `fat_start`.
#[verifier::opaque]
pub open spec fn in_fat_entries(fat_start: int, cs: Seq<u32>, idx: int) -> bool {
    exists|j: int|
        0 <= j < cs.len() && 512 * fat_start + 4 * (#[trigger] cs[j] as int) <= idx < 512
            * fat_start + 4 * (cs[j] as int) + 4
}

/// Whether byte position `idx` lies inside the data span of one of the
/// clusters in `cs`, on a volume whose data region starts at sector
/// `data_start` with `spc` sectors per cluster.
#[verifier::opaque]
pub open spec fn in_cluster_spans(data_start: int, spc: int, cs: Seq<u32>, idx: int) -> bool {
    exists|j: int|
        0 <= j < cs.len() && 512 * (data_start + ((#[trigger] cs[j] as int) - 2) * spc) <= idx
            < 512 * (data_start + ((cs[j] as int) - 2) * spc) + 512 * spc
}

/// Raw 32-bit FAT entry of cluster `c` within the device image `d`, whose
/// FAT region starts at sector `fat_start`.
pub open spec fn fat_raw_in(d: Seq<u8>, fat_start: int, c: int) -> u32 {
    le32(
        d[512 * fat_start + 4 * c],
        d[512 * fat_start + 4 * c + 1],
        d[512 * fat_start + 4 * c + 2],
        d[512 * fat_start + 4 * c + 3],
    )
}

/// One mounted FAT32 volume on one drive.
pub struct Fat32Driver {
    pub drive: BlockDevice,
    pub fat_start_sector: u32,
    pub data_start_sector: u32,
    pub sectors_per_cluster: u32,
    pub root_cluster: u32,
}

impl Fat32Driver {
    // --- Geometry, as specification-level views ----------------------------

    /// Sectors the device holds.
    pub open spec fn spec_total_sectors(&self) -> int {
        self.drive@.len() as int / 512
    }

    /// Bytes per cluster.
    pub open spec fn spec_cluster_size(&self) -> int {
        512 * self.sectors_per_cluster
    }

    /// One past the largest addressable cluster number.
    pub open spec fn spec_max_cluster(&self) -> int {
        2 + (self.spec_total_sectors() - self.data_start_sector) / (self.sectors_per_cluster as int)
    }

    /// How many entries the FAT region can hold (128 per sector).
    pub open spec fn spec_fat_capacity(&self) -> int {
        128 * (self.data_start_sector - self.fat_start_sector)
    }

    /// Whether `c` addresses a cluster of the data region.
    pub open spec fn spec_cluster_valid(&self, c: int) -> bool {
        2 <= c < self.spec_max_cluster()
    }

    /// First sector of cluster `c`.
    pub open spec fn spec_cluster_lba(&self, c: int) -> int {
        self.data_start_sector + (c - 2) * self.sectors_per_cluster
    }

    /// The bytes of cluster `c`.
    pub open spec fn spec_cluster_bytes(&self, c: int) -> Seq<u8> {
        self.drive@.subrange(
            512 * self.spec_cluster_lba(c),
            512 * self.spec_cluster_lba(c) + self.spec_cluster_size(),
        )
    }

    /// Byte position of cluster `c`'s FAT entry.
    pub open spec fn spec_fat_pos(&self, c: int) -> int {
        512 * self.fat_start_sector + 4 * c
    }

    /// Raw 32-bit FAT entry of cluster `c`.
    pub open spec fn spec_fat_raw(&self, c: int) -> u32 {
        fat_raw_in(self.drive@, self.fat_start_sector as int, c)
    }

    /// The 28 significant bits of cluster `c`'s FAT entry.
    pub open spec fn spec_fat_masked(&self, c: int) -> u32 {
        self.spec_fat_raw(c) & FAT_ENTRY_MASK
    }

    /// Whether cluster `c` is free.
    pub open spec fn spec_fat_free(&self, c: int) -> bool {
        self.spec_fat_masked(c) == 0
    }

    /// Whether `c` has a FAT entry of its own and is no reserved number.
    pub open spec fn spec_fat_in_range(&self, c: int) -> bool {
        0 <= c < self.spec_fat_capacity() && c <= FAT_MAX_CLUSTER
    }

    /// One past the largest cluster the allocator may hand out: every
    /// addressable cluster below the reserved top of the 28-bit space.
    pub open spec fn spec_alloc_limit(&self) -> int {
        if self.spec_max_cluster() <= FAT_MAX_CLUSTER {
            self.spec_max_cluster()
        } else {
            FAT_MAX_CLUSTER as int
        }
    }

    /// Two drivers with the same cached geometry.
    pub open spec fn same_geometry(&self, other: &Fat32Driver) -> bool {
        &&& self.fat_start_sector == other.fat_start_sector
        &&& self.data_start_sector == other.data_start_sector
        &&& self.sectors_per_cluster == other.sectors_per_cluster
        &&& self.root_cluster == other.root_cluster
    }

    /// A mounted volume: sane cached geometry over a well-formed device,
    /// with the FAT able to map every addressable cluster.
    pub open spec fn wf(&self) -> bool {
        &&& self.drive.wf()
        &&& 1 <= self.sectors_per_cluster <= 255
        &&& 1 <= self.fat_start_sector < self.data_start_sector
        &&& self.data_start_sector <= self.spec_total_sectors()
        &&& self.spec_max_cluster() <= self.spec_fat_capacity()
        &&& self.spec_max_cluster() <= FAT_MAX_CLUSTER + 1
        &&& self.spec_cluster_valid(self.root_cluster as int)
    }

    // --- Bounds lemmas ------------------------------------------------------

    /// A valid cluster's sectors lie within the device.
    pub proof fn lemma_cluster_in_device(&self, c: int)
        requires
            self.wf(),
            self.spec_cluster_valid(c),
        ensures
            self.data_start_sector <= self.spec_cluster_lba(c),
            self.spec_cluster_lba(c) + self.sectors_per_cluster <= self.spec_total_sectors(),
            512 * self.spec_cluster_lba(c) + self.spec_cluster_size() <= self.drive@.len(),
    {
        let spc = self.sectors_per_cluster as int;
        let total = self.spec_total_sectors();
        let data = self.data_start_sector as int;
        let q = (total - data) / spc;
        assert(c - 2 < q);
        assert(q * spc <= total - data) by (nonlinear_arith)
            requires
                spc >= 1,
                total - data >= 0,
                q == (total - data) / spc,
        ;
        assert((c - 2) * spc + spc <= q * spc) by (nonlinear_arith)
            requires
                spc >= 1,
                c - 2 < q,
        ;
        assert((c - 2) * spc >= 0) by (nonlinear_arith)
            requires
                spc >= 1,
                c >= 2,
        ;
        assert(512 * (data + (c - 2) * spc) + 512 * spc <= 512 * total);
        assert(512 * total <= self.drive@.len()) by {
            assert(self.drive@.len() % 512 == 0);
            assert(512 * (self.drive@.len() / 512) == self.drive@.len() - self.drive@.len() % 512);
        }
    }

    /// Two different clusters occupy disjoint byte ranges.
    pub proof fn lemma_cluster_ranges_disjoint(&self, c1: int, c2: int)
        requires
            self.wf(),
            self.spec_cluster_valid(c1),
            self.spec_cluster_valid(c2),
            c1 != c2,
        ensures
            512 * self.spec_cluster_lba(c1) + self.spec_cluster_size() <= 512
                * self.spec_cluster_lba(c2) || 512 * self.spec_cluster_lba(c2)
                + self.spec_cluster_size() <= 512 * self.spec_cluster_lba(c1),
    {
        let spc = self.sectors_per_cluster as int;
        if c1 < c2 {
            assert((c1 - 2) * spc + spc <= (c2 - 2) * spc) by (nonlinear_arith)
                requires
                    spc >= 1,
                    c1 < c2,
            ;
        } else {
            assert((c2 - 2) * spc + spc <= (c1 - 2) * spc) by (nonlinear_arith)
                requires
                    spc >= 1,
                    c2 < c1,
            ;
        }
    }

    /// A FAT entry within capacity lies in the FAT region, before the data
    /// region and within the device.
    pub proof fn lemma_fat_entry_in_device(&self, c: int)
        requires
            self.wf(),
            self.spec_fat_in_range(c),
        ensures
            512 * self.fat_start_sector <= self.spec_fat_pos(c),
            self.spec_fat_pos(c) + 4 <= 512 * self.data_start_sector,
            self.spec_fat_pos(c) + 4 <= self.drive@.len(),
    {
        assert(4 * c + 4 <= 512 * (self.data_start_sector - self.fat_start_sector));
        assert(512 * self.data_start_sector <= 512 * self.spec_total_sectors());
        assert(512 * self.spec_total_sectors() <= self.drive@.len()) by {
            assert(self.drive@.len() % 512 == 0);
            assert(512 * (self.drive@.len() / 512) == self.drive@.len() - self.drive@.len() % 512);
        }
    }

    // --- Mounting -----------------------------------------------------------

    /// Mounts the volume in the device's sector 0. Succeeds exactly when
    /// the boot sector passes `spec_geometry_ok`; the cached geometry then
    /// reproduces the boot sector's fields, with
    /// `data_start_sector == reserved_sectors + fat_count * sectors_per_fat`.
    pub fn new(drive: BlockDevice) -> (r: Result<Fat32Driver, FatError>)
        requires
            drive.wf(),
        ensures
            r is Ok <==> spec_geometry_ok(drive@),
            match r {
                Ok(v) => {
                    &&& v.wf()
                    &&& v.drive@ == drive@
                    &&& v.fat_start_sector == bpb_reserved_sectors(drive@)
                    &&& v.data_start_sector == bpb_data_start(drive@)
                    &&& v.sectors_per_cluster == bpb_sectors_per_cluster(drive@)
                    &&& v.root_cluster == bpb_root_cluster(drive@)
                },
                Err(e) => e == FatError::UnsupportedGeometry,
            },
    {
        if drive.total_sectors() == 0 {
            return Err(FatError::UnsupportedGeometry);
        }
        let total: u32 = drive.total_sectors();
        let buf = drive.read_sector_bytes(0);
        proof {
            assert(buf@ =~= drive@.subrange(0, 512));
            assert forall|k: int| 0 <= k < 512 implies buf@[k] == drive@[k] by {}
        }
        let bytes_per_sector = crate::dir::read_le16(&buf, 11);
        let sectors_per_cluster = buf[13];
        let reserved_sectors = crate::dir::read_le16(&buf, 14);
        let fat_count = buf[16];
        let sectors_per_fat = crate::dir::read_le32(&buf, 36);
        let root_cluster = crate::dir::read_le32(&buf, 44);
        if bytes_per_sector != 512 {
            return Err(FatError::UnsupportedGeometry);
        }
        if sectors_per_cluster == 0 || reserved_sectors == 0 || fat_count == 0 || sectors_per_fat
            == 0 {
            return Err(FatError::UnsupportedGeometry);
        }
        let reserved_sectors: u32 = reserved_sectors as u32;
        proof {
            assert((fat_count as int) * (sectors_per_fat as int) <= 255 * 0xffff_ffff)
                by (nonlinear_arith)
                requires
                    fat_count <= 255,
                    sectors_per_fat <= 0xffff_ffffu32,
            ;
        }
        let data_start_wide: u64 = reserved_sectors as u64 + (fat_count as u64) * (
        sectors_per_fat as u64);
        if data_start_wide > total as u64 {
            return Err(FatError::UnsupportedGeometry);
        }
        let data_start: u32 = data_start_wide as u32;
        let spc: u32 = sectors_per_cluster as u32;
        let max_cluster: u64 = 2 + ((total - data_start) / spc) as u64;
        let capacity: u64 = 128 * (data_start as u64 - reserved_sectors as u64);
        if max_cluster > capacity {
            return Err(FatError::UnsupportedGeometry);
        }
        if max_cluster > FAT_MAX_CLUSTER as u64 + 1 {
            return Err(FatError::UnsupportedGeometry);
        }
        if root_cluster < 2 || root_cluster as u64 >= max_cluster {
            return Err(FatError::UnsupportedGeometry);
        }
        let v = Fat32Driver {
            drive,
            fat_start_sector: reserved_sectors,
            data_start_sector: data_start,
            sectors_per_cluster: spc,
            root_cluster,
        };
        proof {
            assert(v.spec_total_sectors() == total);
            assert(v.spec_max_cluster() == max_cluster);
            assert(v.spec_fat_capacity() == capacity);
        }
        Ok(v)
    }

    // --- Sector and cluster access ------------------------------------------

    /// First sector of cluster `c`: the data region plus `c - 2` whole
    /// clusters.
    pub fn cluster_to_lba(&self, cluster: u32) -> (lba: u32)
        requires
            self.wf(),
            self.spec_cluster_valid(cluster as int),
        ensures
            lba == self.spec_cluster_lba(cluster as int),
            512 * (lba as int) + self.spec_cluster_size() <= self.drive@.len(),
    {
        proof {
            self.lemma_cluster_in_device(cluster as int);
            assert(self.spec_total_sectors() <= u32::MAX);
        }
        self.data_start_sector + (cluster - 2) * self.sectors_per_cluster
    }

    /// The raw FAT entry of `cluster`, read from the sector that holds it.
    fn fat_raw_entry(&self, cluster: u32) -> (r: u32)
        requires
            self.wf(),
            self.spec_fat_in_range(cluster as int),
        ensures
            r == self.spec_fat_raw(cluster as int),
    {
        proof {
            self.lemma_fat_entry_in_device(cluster as int);
        }
        let fat_offset: u32 = cluster * 4;
        let fat_sector: u32 = self.fat_start_sector + fat_offset / 512;
        let ent_offset: usize = (fat_offset % 512) as usize;
        proof {
            assert(512 * ((4 * cluster as int) / 512) + (4 * cluster as int) % 512 == 4 * (
            cluster as int)) by {
                vstd::arithmetic::div_mod::lemma_fundamental_div_mod(4 * cluster as int, 512);
            }
            assert(512 * (fat_sector as int) + ent_offset as int == self.spec_fat_pos(
                cluster as int,
            ));
        }
        let buf = self.drive.read_sector_bytes(fat_sector);
        crate::dir::read_le32(&buf, ent_offset)
    }

    /// The 28 significant bits of `cluster`'s FAT entry.
    pub fn get_fat_entry(&self, cluster: u32) -> (r: u32)
        requires
            self.wf(),
            self.spec_fat_in_range(cluster as int),
        ensures
            r == self.spec_fat_masked(cluster as int),
    {
        self.fat_raw_entry(cluster) & FAT_ENTRY_MASK
    }

    /// Writes `value` into the 28 significant bits of `cluster`'s FAT
    /// entry, preserving the four reserved top bits already on disk.
    /// Nothing else on the device changes.
    pub fn set_fat_entry(&mut self, cluster: u32, value: u32)
        requires
            old(self).wf(),
            old(self).spec_fat_in_range(cluster as int),
        ensures
            final (self).wf(),
            final (self).same_geometry(old(self)),
            final (self).drive@.len() == old(self).drive@.len(),
            final (self).spec_fat_raw(cluster as int) == (old(self).spec_fat_raw(cluster as int)
                & 0xf000_0000) | (value & FAT_ENTRY_MASK),
            forall|i: int|
                0 <= i < old(self).drive@.len() && !(old(self).spec_fat_pos(cluster as int) <= i
                    < old(self).spec_fat_pos(cluster as int) + 4) ==> final (self).drive@[i] == old(
                self,
            ).drive@[i],
            forall|k: int|
                0 <= k < 4 ==> final (self).drive@[old(self).spec_fat_pos(cluster as int) + k]
                    == u32_byte(
                    (old(self).spec_fat_raw(cluster as int) & 0xf000_0000) | (value
                        & FAT_ENTRY_MASK),
                    k,
                ),
    {
        proof {
            self.lemma_fat_entry_in_device(cluster as int);
        }
        let fat_offset: u32 = cluster * 4;
        let fat_sector: u32 = self.fat_start_sector + fat_offset / 512;
        let ent_offset: usize = (fat_offset % 512) as usize;
        proof {
            assert(512 * ((4 * cluster as int) / 512) + (4 * cluster as int) % 512 == 4 * (
            cluster as int)) by {
                vstd::arithmetic::div_mod::lemma_fundamental_div_mod(4 * cluster as int, 512);
            }
            assert(512 * (fat_sector as int) + ent_offset as int == self.spec_fat_pos(
                cluster as int,
            ));
            assert(ent_offset + 4 <= 512) by {
                assert((4 * cluster as int) % 512 % 4 == 0) by (nonlinear_arith);
                assert((4 * cluster as int) % 512 < 512);
                assert((4 * cluster as int) % 512 <= 508) by (nonlinear_arith)
                    requires
                        (4 * cluster as int) % 512 % 4 == 0,
                        (4 * cluster as int) % 512 < 512,
                ;
            }
        }
        let mut buf = self.drive.read_sector_bytes(fat_sector);
        let old_raw = crate::dir::read_le32(&buf, ent_offset);
        let new_raw = (old_raw & 0xf000_0000) | (value & FAT_ENTRY_MASK);
        proof {
            let x = new_raw;
            assert((x & 0xff) == ((x >> 0) & 0xff)) by (bit_vector);
        }
        buf[ent_offset] = (new_raw & 0xff) as u8;
        buf[ent_offset + 1] = ((new_raw >> 8) & 0xff) as u8;
        buf[ent_offset + 2] = ((new_raw >> 16) & 0xff) as u8;
        buf[ent_offset + 3] = ((new_raw >> 24) & 0xff) as u8;
        self.drive.write_sector_bytes(fat_sector, &buf);
        proof {
            let pos = old(self).spec_fat_pos(cluster as int);
            assert(old_raw == old(self).spec_fat_raw(cluster as int));
            assert forall|k: int| 0 <= k < 4 implies self.drive@[pos + k] == u32_byte(new_raw, k)
                by {
                assert(self.drive@[pos + k] == buf@[ent_offset + k]);
            }
            crate::codec::lemma_u32_bytes_roundtrip(new_raw);
            assert(self.spec_fat_raw(cluster as int) == le32(
                u32_byte(new_raw, 0),
                u32_byte(new_raw, 1),
                u32_byte(new_raw, 2),
                u32_byte(new_raw, 3),
            ));
        }
    }

    /// The cluster after `current_cluster` in its chain, or nothing at
    /// end-of-chain: exactly when the entry's 28 significant bits are at or
    /// above `FAT_EOC`.
    pub fn next_cluster(&self, current_cluster: u32) -> (r: Option<u32>)
        requires
            self.wf(),
            self.spec_fat_in_range(current_cluster as int),
        ensures
            r is None <==> self.spec_fat_masked(current_cluster as int) >= FAT_EOC,
            r is Some ==> r == Some(self.spec_fat_masked(current_cluster as int)),
    {
        let val = self.get_fat_entry(current_cluster);
        if val >= FAT_EOC {
            None
        } else {
            Some(val)
        }
    }

    /// The whole contents of cluster `cluster`, one sector after another.
    pub fn read_cluster(&self, cluster: u32) -> (data: Vec<u8>)
        requires
            self.wf(),
            self.spec_cluster_valid(cluster as int),
        ensures
            data@ == self.spec_cluster_bytes(cluster as int),
            data@.len() == self.spec_cluster_size(),
    {
        proof {
            self.lemma_cluster_in_device(cluster as int);
        }
        let start_lba = self.cluster_to_lba(cluster);
        let mut data: Vec<u8> = Vec::new();
        let mut i: u32 = 0;
        while i < self.sectors_per_cluster
            invariant
                i <= self.sectors_per_cluster,
                self.wf(),
                start_lba == self.spec_cluster_lba(cluster as int),
                512 * (start_lba as int) + self.spec_cluster_size() <= self.drive@.len(),
                data@ == self.drive@.subrange(
                    512 * (start_lba as int),
                    512 * (start_lba as int) + 512 * (i as int),
                ),
            decreases self.sectors_per_cluster - i,
        {
            let mut sec = self.drive.read_sector_bytes(start_lba + i);
            data.append(&mut sec);
            proof {
                assert_seqs_equal!(
                    data@ == self.drive@.subrange(
                        512 * (start_lba as int),
                        512 * (start_lba as int) + 512 * (i + 1),
                    )
                );
            }
            i = i + 1;
        }
        data
    }

    /// Writes `buf` — exactly one cluster of bytes — into cluster
    /// `cluster`. Nothing else on the device changes.
    fn write_cluster(&mut self, cluster: u32, buf: &Vec<u8>)
        requires
            old(self).wf(),
            old(self).spec_cluster_valid(cluster as int),
            buf@.len() == old(self).spec_cluster_size(),
        ensures
            final (self).wf(),
            final (self).same_geometry(old(self)),
            final (self).drive@ =~= spec_write_range(
                old(self).drive@,
                512 * old(self).spec_cluster_lba(cluster as int),
                buf@,
            ),
    {
        proof {
            self.lemma_cluster_in_device(cluster as int);
        }
        let start_lba = self.cluster_to_lba(cluster);
        let ghost base: int = 512 * (start_lba as int);
        let mut i: u32 = 0;
        while i < self.sectors_per_cluster
            invariant
                i <= self.sectors_per_cluster,
                self.wf(),
                self.same_geometry(old(self)),
                base == 512 * (start_lba as int),
                start_lba == old(self).spec_cluster_lba(cluster as int),
                buf@.len() == self.spec_cluster_size(),
                base + self.spec_cluster_size() <= self.drive@.len(),
                self.drive@.len() == old(self).drive@.len(),
                self.sectors_per_cluster == old(self).sectors_per_cluster,
                forall|k: int|
                    0 <= k < self.drive@.len() ==> self.drive@[k] == if base <= k < base + 512 * (
                    i as int) {
                        buf@[k - base]
                    } else {
                        old(self).drive@[k]
                    },
            decreases self.sectors_per_cluster - i,
        {
            let mut sec: Vec<u8> = Vec::new();
            let mut j: usize = 0;
            while j < 512
                invariant
                    j <= 512,
                    i < self.sectors_per_cluster,
                    self.sectors_per_cluster <= 255,
                    buf@.len() == self.spec_cluster_size(),
                    self.spec_cluster_size() == 512 * self.sectors_per_cluster,
                    sec@ == buf@.subrange(512 * (i as int), 512 * (i as int) + j as int),
                decreases 512 - j,
            {
                sec.push(buf[512 * (i as usize) + j]);
                proof {
                    assert_seqs_equal!(
                        sec@ == buf@.subrange(512 * (i as int), 512 * (i as int) + j + 1)
                    );
                }
                j = j + 1;
            }
            self.drive.write_sector_bytes(start_lba + i, &sec);
            i = i + 1;
        }
    }

    // --- Directory scanning and chain walking -------------------------------

    /// Fuel for chain walks: no acyclic chain can be longer than the number
    /// of addressable clusters, so a walk that runs out of fuel has hit a
    /// cycle and ends instead of spinning forever.
    pub open spec fn spec_walk_fuel(&self) -> nat {
        (self.spec_max_cluster() - 1) as nat
    }

    /// Display names of the used records of the directory chain starting
    /// at cluster `c`: per cluster the used records before the end
    /// sentinel, and further clusters only while no sentinel was seen, the
    /// FAT links on, and the link stays a valid cluster.
    pub open spec fn spec_dir_names(&self, c: int, fuel: nat) -> Seq<Seq<u8>>
        decreases fuel,
    {
        if fuel == 0 || !self.spec_cluster_valid(c) {
            Seq::empty()
        } else {
            let data = self.spec_cluster_bytes(c);
            let names = spec_scan_names(data, 0);
            if spec_scan_hits_end(data, 0) {
                names
            } else if self.spec_fat_masked(c) >= FAT_EOC {
                names
            } else {
                names + self.spec_dir_names(self.spec_fat_masked(c) as int, (fuel - 1) as nat)
            }
        }
    }

    /// The first used record of the directory chain starting at `c` whose
    /// display name equals `q` up to ASCII case, scanning as
    /// `spec_dir_names` does.
    pub open spec fn spec_dir_find(&self, q: Seq<u8>, c: int, fuel: nat) -> Option<Seq<u8>>
        decreases fuel,
    {
        if fuel == 0 || !self.spec_cluster_valid(c) {
            None
        } else {
            let data = self.spec_cluster_bytes(c);
            match spec_scan_find(data, q, 0) {
                Some(rec) => Some(rec),
                None => if spec_scan_hits_end(data, 0) {
                    None
                } else if self.spec_fat_masked(c) >= FAT_EOC {
                    None
                } else {
                    self.spec_dir_find(q, self.spec_fat_masked(c) as int, (fuel - 1) as nat)
                },
            }
        }
    }

    /// The bytes reachable from cluster `c` by following the chain: each
    /// cluster's contents, until end-of-chain, a link outside the volume,
    /// or exhausted fuel.
    pub open spec fn spec_file_bytes(&self, c: int, fuel: nat) -> Seq<u8>
        decreases fuel,
    {
        if fuel == 0 || !self.spec_cluster_valid(c) {
            Seq::empty()
        } else {
            self.spec_cluster_bytes(c) + if self.spec_fat_masked(c) >= FAT_EOC {
                Seq::empty()
            } else {
                self.spec_file_bytes(self.spec_fat_masked(c) as int, (fuel - 1) as nat)
            }
        }
    }

    /// What `read_file` returns for a found record: the chain's bytes from
    /// the record's starting cluster, cut down to the record's size (whole
    /// clusters over-read; the declared size wins).
    pub open spec fn spec_file_content(&self, rec: Seq<u8>) -> Seq<u8> {
        let all = self.spec_file_bytes(rec_cluster(rec) as int, self.spec_walk_fuel());
        if rec_size(rec) <= all.len() {
            all.take(rec_size(rec) as int)
        } else {
            all
        }
    }

    /// Whether `c` addresses a cluster of the data region.
    pub fn cluster_valid(&self, c: u32) -> (r: bool)
        requires
            self.wf(),
        ensures
            r == self.spec_cluster_valid(c as int),
    {
        c >= 2 && c - 2 < self.total_clusters()
    }

    /// Lists the display names of the root directory: every record that is
    /// not deleted, not a long-name fragment and not past the end
    /// sentinel, in directory order across the root's cluster chain.
    pub fn list_root(&self) -> (files: Vec<String>)
        requires
            self.wf(),
        ensures
            files@.map_values(|s: String| s@) == self.spec_dir_names(
                self.root_cluster as int,
                self.spec_walk_fuel(),
            ).map_values(|b: Seq<u8>| bytes_as_chars(b)),
    {
        let ghost whole = self.spec_dir_names(self.root_cluster as int, self.spec_walk_fuel());
        let mut files: Vec<String> = Vec::new();
        let mut cur: u32 = self.root_cluster;
        let mut fuel: u32 = self.total_clusters() + 1;
        let mut run = true;
        while run && fuel > 0
            invariant
                self.wf(),
                run ==> self.spec_cluster_valid(cur as int),
                run ==> files@.map_values(|s: String| s@) + self.spec_dir_names(
                    cur as int,
                    fuel as nat,
                ).map_values(|b: Seq<u8>| bytes_as_chars(b)) == whole.map_values(
                    |b: Seq<u8>| bytes_as_chars(b),
                ),
                !run ==> files@.map_values(|s: String| s@) == whole.map_values(
                    |b: Seq<u8>| bytes_as_chars(b),
                ),
            decreases fuel, (if run {
                1int
            } else {
                0int
            }),
        {
            let data = self.read_cluster(cur);
            let (mut names, hit_end) = self.scan_cluster_names(&data);
            proof {
                assert(files@.map_values(|s: String| s@) + names@.map_values(|s: String| s@)
                    =~= (files@ + names@).map_values(|s: String| s@));
            }
            files.append(&mut names);
            if hit_end {
                run = false;
            } else {
                match self.next_cluster(cur) {
                    None => {
                        run = false;
                    },
                    Some(n) => {
                        fuel = fuel - 1;
                        if fuel == 0 || !self.cluster_valid(n) {
                            run = false;
                            proof {
                                assert(self.spec_dir_names(n as int, fuel as nat) =~= Seq::<
                                    Seq<u8>,
                                >::empty());
                            }
                        } else {
                            cur = n;
                        }
                    },
                }
            }
        }
        files
    }

    /// Scans one cluster's records for display names, stopping at the end
    /// sentinel; also reports whether the sentinel was seen.
    fn scan_cluster_names(&self, data: &Vec<u8>) -> (r: (Vec<String>, bool))
        ensures
            r.0@.map_values(|s: String| s@) == spec_scan_names(data@, 0).map_values(
                |b: Seq<u8>| bytes_as_chars(b),
            ),
            r.1 == spec_scan_hits_end(data@, 0),
    {
        let count: usize = data.len() / 32;
        let n: usize = data.len();
        let mut out: Vec<String> = Vec::new();
        let mut k: usize = 0;
        while k < count
            invariant
                k <= count,
                count == dir_rec_count(data@),
                n == data@.len(),
                spec_scan_names(data@, 0).map_values(|b: Seq<u8>| bytes_as_chars(b))
                    =~= out@.map_values(|s: String| s@) + spec_scan_names(data@, k as int)
                    .map_values(|b: Seq<u8>| bytes_as_chars(b)),
                spec_scan_hits_end(data@, 0) == spec_scan_hits_end(data@, k as int),
            decreases count - k,
        {
            proof {
                assert(32 * (k as int) + 32 <= 32 * dir_rec_count(data@));
                assert(32 * (data@.len() as int / 32) <= data@.len());
            }
            let ghost rec = dir_rec(data@, k as int);
            let e = DirectoryEntry::parse(data, 32 * k);
            proof {
                assert(e.name@[0] == rec[0] && e.attributes == rec[11]);
            }
            if e.is_end() {
                return (out, true);
            }
            if !e.is_free() && !e.is_long_name() {
                let s = e.get_filename();
                out.push(s);
                proof {
                    assert(spec_scan_names(data@, k as int) =~= seq![
                        spec_filename(rec_name(rec), rec_ext(rec)),
                    ] + spec_scan_names(data@, k + 1));
                    assert(spec_scan_names(data@, k as int).map_values(
                        |b: Seq<u8>| bytes_as_chars(b),
                    ) =~= seq![bytes_as_chars(spec_filename(rec_name(rec), rec_ext(rec)))]
                        + spec_scan_names(data@, k + 1).map_values(|b: Seq<u8>| bytes_as_chars(b)));
                    assert(out@.map_values(|s2: String| s2@) =~= out@.drop_last().map_values(
                        |s2: String| s2@,
                    ).push(bytes_as_chars(spec_filename(rec_name(rec), rec_ext(rec)))));
                }
            }
            k = k + 1;
        }
        (out, false)
    }

    /// Scans one cluster's records for a name match, stopping at the end
    /// sentinel; also reports whether the sentinel was seen.
    fn scan_cluster_find(&self, data: &Vec<u8>, q: &[u8]) -> (r: (Option<DirectoryEntry>, bool))
        ensures
            match spec_scan_find(data@, q@, 0) {
                Some(rec) => r.0 is Some && crate::dir::matches_record(r.0->0, rec),
                None => r.0 is None,
            },
            r.0 is None ==> r.1 == spec_scan_hits_end(data@, 0),
    {
        let count: usize = data.len() / 32;
        let n: usize = data.len();
        let mut k: usize = 0;
        while k < count
            invariant
                k <= count,
                count == dir_rec_count(data@),
                n == data@.len(),
                spec_scan_find(data@, q@, 0) == spec_scan_find(data@, q@, k as int),
                spec_scan_hits_end(data@, 0) == spec_scan_hits_end(data@, k as int),
            decreases count - k,
        {
            proof {
                assert(32 * (k as int) + 32 <= 32 * dir_rec_count(data@));
                assert(32 * (data@.len() as int / 32) <= data@.len());
            }
            let ghost rec = dir_rec(data@, k as int);
            let e = DirectoryEntry::parse(data, 32 * k);
            proof {
                assert(e.name@[0] == rec[0] && e.attributes == rec[11]);
            }
            if e.is_end() {
                return (None, true);
            }
            if !e.is_free() && !e.is_long_name() {
                let fb = e.filename_bytes();
                if crate::dir::names_match(&fb, q) {
                    return (Some(e), false);
                }
            }
            k = k + 1;
        }
        (None, false)
    }

    /// The first record of the root directory whose display name equals
    /// the queried name up to ASCII case, decoded.
    fn find_entry(&self, q: &[u8]) -> (r: Option<DirectoryEntry>)
        requires
            self.wf(),
        ensures
            match self.spec_dir_find(q@, self.root_cluster as int, self.spec_walk_fuel()) {
                Some(rec) => r is Some && crate::dir::matches_record(r->0, rec),
                None => r is None,
            },
    {
        let ghost whole = self.spec_dir_find(q@, self.root_cluster as int, self.spec_walk_fuel());
        let mut cur: u32 = self.root_cluster;
        let mut fuel: u32 = self.total_clusters() + 1;
        while fuel > 0
            invariant
                self.wf(),
                self.spec_cluster_valid(cur as int),
                whole == self.spec_dir_find(q@, self.root_cluster as int, self.spec_walk_fuel()),
                whole == self.spec_dir_find(q@, cur as int, fuel as nat),
            decreases fuel,
        {
            let data = self.read_cluster(cur);
            let (found, hit_end) = self.scan_cluster_find(&data, q);
            match found {
                Some(e) =>

                {
                    return Some(e);
                },
                None => {},
            }
            if hit_end {
                return None;
            }
            match self.next_cluster(cur) {
                None => {
                    return None;
                },
                Some(nx) => {
                    proof {
                        assert(whole == self.spec_dir_find(q@, nx as int, (fuel - 1) as nat));
                    }
                    fuel = fuel - 1;
                    if fuel == 0 || !self.cluster_valid(nx) {
                        proof {
                            assert(self.spec_dir_find(q@, nx as int, fuel as nat) is None);
                        }
                        return None;
                    }
                    cur = nx;
                },
            }
        }
        None
    }

    /// Whether a file of that name exists in the root directory.
    pub fn file_exists(&self, filename: &str) -> (r: bool)
        requires
            self.wf(),
        ensures
            r == self.spec_dir_find(
                filename.spec_bytes(),
                self.root_cluster as int,
                self.spec_walk_fuel(),
            ) is Some,
    {
        let q = filename.as_bytes();
        match self.find_entry(q) {
            Some(_) => true,
            None => false,
        }
    }

    /// Reads a whole file by name: nothing when no record matches, else
    /// the record's cluster chain cut down to its declared size.
    pub fn read_file(&self, filename: &str) -> (r: Option<Vec<u8>>)
        requires
            self.wf(),
        ensures
            match self.spec_dir_find(
                filename.spec_bytes(),
                self.root_cluster as int,
                self.spec_walk_fuel(),
            ) {
                Some(rec) => r is Some && r->0@ == self.spec_file_content(rec),
                None => r is None,
            },
    {
        let q = filename.as_bytes();
        let entry = match self.find_entry(q) {
            Some(e) => e,
            None => {
                return None;
            },
        };
        let start = entry.get_cluster();
        let ghost rec = self.spec_dir_find(
            filename.spec_bytes(),
            self.root_cluster as int,
            self.spec_walk_fuel(),
        )->0;
        proof {
            assert(start == rec_cluster(rec));
        }
        let ghost whole = self.spec_file_bytes(rec_cluster(rec) as int, self.spec_walk_fuel());
        let mut file_data: Vec<u8> = Vec::new();
        let mut cur: u32 = start;
        let mut fuel: u32 = self.total_clusters() + 1;
        let mut run = true;
        while run && fuel > 0
            invariant
                self.wf(),
                run ==> file_data@ + self.spec_file_bytes(cur as int, fuel as nat) == whole,
                !run ==> file_data@ == whole,
            decreases fuel, (if run {
                1int
            } else {
                0int
            }),
        {
            if !self.cluster_valid(cur) {
                run = false;
                proof {
                    assert(self.spec_file_bytes(cur as int, fuel as nat) =~= Seq::<u8>::empty());
                    assert(file_data@ + Seq::<u8>::empty() =~= file_data@);
                }
            } else {
                let mut cdata = self.read_cluster(cur);
                file_data.append(&mut cdata);
                match self.next_cluster(cur) {
                    None => {
                        run = false;
                    },
                    Some(nx) => {
                        fuel = fuel - 1;
                        if fuel == 0 {
                            run = false;
                            proof {
                                assert(self.spec_file_bytes(nx as int, 0) =~= Seq::<u8>::empty());
                                assert(file_data@ + Seq::<u8>::empty() =~= file_data@);
                            }
                        } else {
                            cur = nx;
                        }
                    },
                }
            }
        }
        proof {
            if run {
                assert(self.spec_file_bytes(cur as int, fuel as nat) =~= Seq::<u8>::empty());
                assert(file_data@ + Seq::<u8>::empty() =~= file_data@);
            }
        }
        let size = entry.size as usize;
        if size < file_data.len() {
            file_data.truncate(size);
        }
        proof {
            assert(entry.size == rec_size(rec));
            if rec_size(rec) <= whole.len() {
                assert(file_data@ =~= whole.take(rec_size(rec) as int));
            } else {
                assert(file_data@ == whole);
            }
        }
        Some(file_data)
    }

    // --- Allocation and file creation ---------------------------------------

    /// The first free cluster, scanning upward from cluster 2 through the
    /// clusters the allocator may hand out; nothing once the scan reaches
    /// the end of the addressable data region (or the reserved top of the
    /// 28-bit cluster space).
    pub fn find_free_cluster(&self) -> (r: Option<u32>)
        requires
            self.wf(),
        ensures
            match r {
                Some(c) => {
                    &&& self.spec_cluster_valid(c as int)
                    &&& (c as int) < self.spec_alloc_limit()
                    &&& self.spec_fat_free(c as int)
                    &&& forall|j: int| 2 <= j < c ==> !self.spec_fat_free(j)
                },
                None => forall|j: int| 2 <= j < self.spec_alloc_limit() ==> !self.spec_fat_free(j),
            },
    {
        let tc = self.total_clusters();
        let limit: u32 = if tc >= FAT_MAX_CLUSTER - 2 {
            FAT_MAX_CLUSTER
        } else {
            tc + 2
        };
        proof {
            assert(limit == self.spec_alloc_limit());
        }
        let mut cluster: u32 = 2;
        while cluster < limit
            invariant
                self.wf(),
                2 <= cluster <= limit,
                limit == self.spec_alloc_limit(),
                forall|j: int| 2 <= j < cluster ==> !self.spec_fat_free(j),
            decreases limit - cluster,
        {
            if self.get_fat_entry(cluster) == 0 {
                return Some(cluster);
            }
            cluster = cluster + 1;
        }
        None
    }


    /// First byte position of record slot `k` in the first cluster of the
    /// root directory.
    pub open spec fn spec_root_slot_pos(&self, k: int) -> int {
        512 * self.spec_cluster_lba(self.root_cluster as int) + 32 * k
    }

    /// The 32 bytes of record slot `k` in the first cluster of the root
    /// directory.
    pub open spec fn spec_root_record(&self, k: int) -> Seq<u8> {
        self.drive@.subrange(self.spec_root_slot_pos(k), self.spec_root_slot_pos(k) + 32)
    }

    /// Whether record slot `k` of the root directory's first cluster may
    /// take a new entry: it is the end sentinel or a deleted record.
    pub open spec fn spec_root_slot_free(&self, k: int) -> bool {
        self.drive@[self.spec_root_slot_pos(k)] == NAME_END || self.drive@[self.spec_root_slot_pos(
            k,
        )] == NAME_FREE
    }

    /// Whether the first cluster of the root directory — the only part of
    /// it ever searched for a slot, a stated limitation of the driver —
    /// has room for one more entry among its `16 * sectors_per_cluster`
    /// slots.
    pub open spec fn spec_root_has_free_slot(&self) -> bool {
        exists|k: int|
            0 <= k < 16 * self.sectors_per_cluster && self.spec_root_slot_free(k)
    }

    /// Whether `cs` lists clusters in the allocator's first-fit order:
    /// every free cluster smaller than an entry already stands earlier in
    /// `cs`. Together with freeness and distinctness this pins the
    /// allocator's choice exactly, so equal volumes allocate equal chains.
    pub open spec fn spec_first_fit_order(&self, cs: Seq<u32>) -> bool {
        forall|i: int, j: int|
            #![trigger cs[i], self.spec_fat_free(j)]
            0 <= i < cs.len() && 2 <= j < cs[i] && self.spec_fat_free(j) ==> cs.take(i).contains(
                j as u32,
            )
    }

    /// How many free clusters the allocator can still find at or above
    /// cluster `from`.
    pub open spec fn spec_free_count(&self, from: int) -> nat
        decreases self.spec_alloc_limit() - from,
    {
        if from < 2 || from >= self.spec_alloc_limit() {
            0
        } else {
            (if self.spec_fat_free(from) {
                1nat
            } else {
                0nat
            }) + self.spec_free_count(from + 1)
        }
    }

    /// Clusters a file of `len` bytes needs: its size divided by the
    /// cluster size, rounded up.
    pub open spec fn spec_clusters_needed(&self, len: int) -> int {
        (len + self.spec_cluster_size() - 1) / self.spec_cluster_size()
    }

    /// There are never more free clusters than clusters the scan covers.
    pub proof fn lemma_free_count_bound(&self, from: int)
        requires
            2 <= from,
        ensures
            self.spec_free_count(from) <= self.spec_alloc_limit() - from || self.spec_free_count(
                from,
            ) == 0,
        decreases self.spec_alloc_limit() - from,
    {
        if from < self.spec_alloc_limit() {
            self.lemma_free_count_bound(from + 1);
        }
    }

    /// The free count is zero exactly when no scanned cluster is free.
    pub proof fn lemma_free_count_zero(&self, from: int)
        requires
            2 <= from,
        ensures
            (self.spec_free_count(from) == 0) <==> (forall|j: int|
                from <= j < self.spec_alloc_limit() ==> !self.spec_fat_free(j)),
        decreases self.spec_alloc_limit() - from,
    {
        if from < self.spec_alloc_limit() {
            self.lemma_free_count_zero(from + 1);
        }
    }

    /// Marking one free cluster used lowers the free count by exactly one
    /// (when the scan covers it), and by nothing otherwise.
    pub proof fn lemma_free_count_mark(&self, other: &Fat32Driver, c: int, from: int)
        requires
            self.same_geometry(other),
            self.drive@.len() == other.drive@.len(),
            2 <= from,
            2 <= c < self.spec_alloc_limit(),
            self.spec_fat_free(c),
            !other.spec_fat_free(c),
            forall|j: int|
                2 <= j < self.spec_alloc_limit() && j != c ==> self.spec_fat_masked(j)
                    == other.spec_fat_masked(j),
        ensures
            self.spec_free_count(from) == other.spec_free_count(from) + if from <= c {
                1int
            } else {
                0int
            },
        decreases self.spec_alloc_limit() - from,
    {
        assert(self.spec_alloc_limit() == other.spec_alloc_limit());
        if from < self.spec_alloc_limit() {
            self.lemma_free_count_mark(other, c, from + 1);
        }
    }

    /// Appends a directory entry for `filename` to the first free slot of
    /// the root directory's first cluster; later root clusters are never
    /// searched, a stated limitation of the driver. Fails with
    /// `InvalidName` exactly when the name does not fit 8.3 form, and with
    /// `RootDirectoryFull` exactly when no slot of that cluster is free;
    /// both failures leave the volume untouched. On success the chosen
    /// slot holds the 8.3-formatted name, `ATTR_ARCHIVE`, `start_cluster`
    /// and `size` with every stamp byte zero, and nothing else on the
    /// device changes.
    fn add_directory_entry(&mut self, filename: &str, start_cluster: u32, size: u32) -> (r: Result<
        (),
        FatError,
    >)
        requires
            old(self).wf(),
        ensures
            final (self).wf(),
            final (self).same_geometry(old(self)),
            final (self).drive@.len() == old(self).drive@.len(),
            r == Err::<(), FatError>(FatError::InvalidName) <==> !spec_valid_83(
                filename.spec_bytes(),
            ),
            r == Err::<(), FatError>(FatError::RootDirectoryFull) <==> spec_valid_83(
                filename.spec_bytes(),
            ) && !old(self).spec_root_has_free_slot(),
            r is Ok <==> spec_valid_83(filename.spec_bytes()) && old(
                self,
            ).spec_root_has_free_slot(),
            r is Err ==> final (self).drive@ == old(self).drive@,
            r is Ok ==> exists|k: int|
                {
                    &&& 0 <= k < 16 * old(self).sectors_per_cluster
                    &&& old(self).spec_root_slot_free(k)
                    &&& forall|k2: int| 0 <= k2 < k ==> !old(self).spec_root_slot_free(k2)
                    &&& rec_name(#[trigger] final (self).spec_root_record(k)) == spec_name83(
                        filename.spec_bytes(),
                    )
                    &&& rec_ext(final (self).spec_root_record(k)) == spec_ext83(
                        filename.spec_bytes(),
                    )
                    &&& rec_attributes(final (self).spec_root_record(k)) == ATTR_ARCHIVE
                    &&& rec_cluster(final (self).spec_root_record(k)) == start_cluster
                    &&& rec_size(final (self).spec_root_record(k)) == size
                    &&& forall|t: int|
                        12 <= t < 20 || 22 <= t < 26 ==> final (self).spec_root_record(k)[t] == 0
                    &&& forall|idx: int|
                        0 <= idx < old(self).drive@.len() && !(old(self).spec_root_slot_pos(k)
                            <= idx < old(self).spec_root_slot_pos(k) + 32) ==> final (self).drive@[idx]
                            == old(self).drive@[idx]
                },
    {
        let q = filename.as_bytes();
        let (name, ext) = match crate::dir::format_83(q) {
            Some(p) => p,
            None => {
                return Err(FatError::InvalidName);
            },
        };
        proof {
            self.lemma_cluster_in_device(self.root_cluster as int);
        }
        let ghost rb: int = 512 * self.spec_cluster_lba(self.root_cluster as int);
        let mut dir_buf = self.read_cluster(self.root_cluster);
        let dir_len: usize = dir_buf.len();
        let slot_count: usize = 16 * (self.sectors_per_cluster as usize);
        let mut entry_offset: usize = 0;
        let mut found_spot = false;
        let mut k: usize = 0;
        while k < slot_count && !found_spot
            invariant
                k <= slot_count,
                self.wf(),
                slot_count == 16 * self.sectors_per_cluster,
                rb == 512 * self.spec_cluster_lba(self.root_cluster as int),
                rb + self.spec_cluster_size() <= self.drive@.len(),
                dir_len == dir_buf@.len(),
                dir_buf@.len() == self.spec_cluster_size(),
                dir_buf@ == self.spec_cluster_bytes(self.root_cluster as int),
                forall|k2: int| 0 <= k2 < k ==> !self.spec_root_slot_free(k2),
                found_spot ==> k < slot_count && entry_offset == 32 * k && self.spec_root_slot_free(
                    k as int,
                ),
            decreases slot_count - k, (if found_spot {
                0int
            } else {
                1int
            }),
        {
            proof {
                assert(dir_buf@[32 * (k as int)] == self.drive@[self.spec_root_slot_pos(
                    k as int,
                )]);
            }
            if dir_buf[32 * k] == NAME_END || dir_buf[32 * k] == NAME_FREE {
                entry_offset = 32 * k;
                found_spot = true;
            } else {
                k = k + 1;
            }
        }
        if !found_spot {
            proof {
                assert(forall|k2: int|
                    0 <= k2 < 16 * self.sectors_per_cluster ==> !self.spec_root_slot_free(k2));
            }
            return Err(FatError::RootDirectoryFull);
        }
        let new_entry = DirectoryEntry {
            name,
            ext,
            attributes: ATTR_ARCHIVE,
            reserved: 0,
            ctime_tenth: 0,
            ctime: 0,
            cdate: 0,
            adate: 0,
            cluster_high: ((start_cluster >> 16) & 0xffff) as u16,
            time: 0,
            date: 0,
            cluster_low: (start_cluster & 0xffff) as u16,
            size,
        };
        let rec_bytes = new_entry.encode();
        let ghost mid_buf = dir_buf@;
        let ghost buf_len = dir_buf@.len();
        let mut t: usize = 0;
        while t < 32
            invariant
                t <= 32,
                dir_len == buf_len,
                entry_offset + 32 <= buf_len,
                rec_bytes@.len() == 32,
                dir_buf@.len() == buf_len,
                mid_buf.len() == buf_len,
                forall|idx: int|
                    0 <= idx < buf_len && !(entry_offset <= idx < entry_offset + t)
                        ==> dir_buf@[idx] == mid_buf[idx],
                forall|idx: int|
                    0 <= idx < t ==> dir_buf@[entry_offset + idx] == rec_bytes@[idx],
            decreases 32 - t,
        {
            dir_buf[entry_offset + t] = rec_bytes[t];
            t = t + 1;
        }
        self.write_cluster(self.root_cluster, &dir_buf);
        proof {
            let kk = k as int;
            let pos = old(self).spec_root_slot_pos(kk);
            assert(pos == rb + entry_offset);
            assert forall|idx: int|
                0 <= idx < old(self).drive@.len() && !(pos <= idx < pos + 32) implies self.drive@[idx]
                == old(self).drive@[idx] by {
                if rb <= idx < rb + old(self).spec_cluster_size() {
                    assert(self.drive@[idx] == dir_buf@[idx - rb]);
                    assert(dir_buf@[idx - rb] == mid_buf[idx - rb]);
                }
            }
            assert(self.spec_root_record(kk) =~= crate::dir::spec_encode(new_entry));
            self.lemma_encode_fields(new_entry, start_cluster, size);
            assert(new_entry.name@ == spec_name83(filename.spec_bytes()));
            assert(crate::codec::word_lo(0u16) == 0 && crate::codec::word_hi(0u16) == 0)
                by (bit_vector);
            assert forall|t2: int|
                12 <= t2 < 20 || 22 <= t2 < 26 implies self.spec_root_record(kk)[t2] == 0 by {
                assert(self.spec_root_record(kk)[t2] == crate::dir::spec_encode(new_entry)[t2]);
            }
            assert(old(self).spec_root_slot_free(kk)) by {
                assert(old(self).drive@[pos] == mid_buf[entry_offset as int]);
            }
        }
        Ok(())
    }

    /// Creates a file: computes how many clusters the data needs, rejects
    /// empty data and duplicate names, allocates first-fit clusters —
    /// marking each end-of-chain at once so the next search skips it —
    /// writes the data zero-padded into them, links the FAT chain, and
    /// appends a directory entry in the root directory's first cluster.
    ///
    /// If the volume runs out of free clusters mid-allocation, every
    /// tentative mark is rolled back and the device is left bit-for-bit as
    /// it was. A rejected empty file or duplicate name also leaves the
    /// device untouched. An invalid name or a full root directory is only
    /// discovered after the clusters are written: those clusters stay
    /// allocated but unreferenced, a documented quirk of this driver.
    ///
    /// The contract pins the outcome: each error comes on exactly the
    /// inputs it names, and when none applies — nonempty data, a new
    /// name, enough free clusters, a free root slot (judged against the
    /// starting state on a volume whose root cluster is not marked free)
    /// — success is owed. On success the written record, the allocated
    /// chain — previously free, pairwise distinct, in the first-fit order
    /// `lemma_first_fit_unique` shows unique, linked each to the next
    /// with the last end-of-chain — and a frame over everything else are
    /// all stated.
    ///
    /// The round trip is part of the contract too: on success — for a
    /// name in plain 8.3 shape whose stored first byte is no directory
    /// sentinel, on a volume whose root cluster is not marked free — the
    /// directory lookup finds the new record and its cluster chain reads
    /// back as exactly the data.
    #[verifier::rlimit(100)]
    #[verifier::spinoff_prover]
    pub fn create_file(&mut self, filename: &str, data: &[u8]) -> (r: Result<(), FatError>)
        requires
            old(self).wf(),
            data@.len() <= u32::MAX,
        ensures
            final (self).wf(),
            final (self).same_geometry(old(self)),
            final (self).drive@.len() == old(self).drive@.len(),
            r == Err::<(), FatError>(FatError::EmptyFile) <==> data@.len() == 0,
            r == Err::<(), FatError>(FatError::FileExists) <==> data@.len() > 0 && old(
                self,
            ).spec_dir_find(
                filename.spec_bytes(),
                old(self).root_cluster as int,
                old(self).spec_walk_fuel(),
            ) is Some,
            r == Err::<(), FatError>(FatError::NotEnoughFreeClusters) <==> data@.len() > 0 && !(old(
                self,
            ).spec_dir_find(
                filename.spec_bytes(),
                old(self).root_cluster as int,
                old(self).spec_walk_fuel(),
            ) is Some) && old(self).spec_free_count(2) < old(self).spec_clusters_needed(
                data@.len() as int,
            ),
            r == Err::<(), FatError>(FatError::EmptyFile) || r == Err::<(), FatError>(
                FatError::FileExists,
            ) || r == Err::<(), FatError>(FatError::NotEnoughFreeClusters) ==> final (self).drive@
                == old(self).drive@,
            !(r == Err::<(), FatError>(FatError::UnsupportedGeometry)),
            r == Err::<(), FatError>(FatError::InvalidName) <==> data@.len() > 0 && !(old(
                self,
            ).spec_dir_find(
                filename.spec_bytes(),
                old(self).root_cluster as int,
                old(self).spec_walk_fuel(),
            ) is Some) && old(self).spec_free_count(2) >= old(self).spec_clusters_needed(
                data@.len() as int,
            ) && !spec_valid_83(filename.spec_bytes()),
            r == Err::<(), FatError>(FatError::RootDirectoryFull) ==> spec_valid_83(
                filename.spec_bytes(),
            ),
            data@.len() > 0 && !(old(self).spec_dir_find(
                filename.spec_bytes(),
                old(self).root_cluster as int,
                old(self).spec_walk_fuel(),
            ) is Some) && old(self).spec_free_count(2) >= old(self).spec_clusters_needed(
                data@.len() as int,
            ) && old(self).spec_fat_masked(old(self).root_cluster as int) != 0 ==> ((r is Ok
                <==> spec_valid_83(filename.spec_bytes()) && old(self).spec_root_has_free_slot())
                && (r == Err::<(), FatError>(FatError::RootDirectoryFull) <==> spec_valid_83(
                filename.spec_bytes(),
            ) && !old(self).spec_root_has_free_slot())),
            (r == Err::<(), FatError>(FatError::InvalidName) || r == Err::<(), FatError>(
                FatError::RootDirectoryFull,
            )) && old(self).spec_fat_masked(old(self).root_cluster as int) != 0 ==> forall|k: int|
                0 <= k < 16 * old(self).sectors_per_cluster ==> final (self).spec_root_record(k)
                    == old(self).spec_root_record(k),
            r is Ok ==> spec_valid_83(filename.spec_bytes()) && exists|k: int, cs: Seq<u32>|
                {
                    &&& 0 <= k < 16 * old(self).sectors_per_cluster
                    &&& rec_name(#[trigger] final (self).spec_root_record(k)) == spec_name83(
                        filename.spec_bytes(),
                    )
                    &&& rec_ext(final (self).spec_root_record(k)) == spec_ext83(
                        filename.spec_bytes(),
                    )
                    &&& rec_attributes(final (self).spec_root_record(k)) == ATTR_ARCHIVE
                    &&& rec_size(final (self).spec_root_record(k)) == data@.len()
                    &&& forall|t: int|
                        12 <= t < 20 || 22 <= t < 26 ==> final (self).spec_root_record(k)[t] == 0
                    &&& cs.len() == old(self).spec_clusters_needed(data@.len() as int)
                    &&& rec_cluster(final (self).spec_root_record(k)) == #[trigger] cs[0]
                    &&& forall|i: int|
                        0 <= i < cs.len() ==> old(self).spec_cluster_valid(
                            #[trigger] cs[i] as int,
                        ) && old(self).spec_fat_free(cs[i] as int)
                    &&& forall|i1: int, i2: int| 0 <= i1 < i2 < cs.len() ==> cs[i1] != cs[i2]
                    &&& old(self).spec_first_fit_order(cs)
                    &&& forall|i: int|
                        0 <= i < cs.len() ==> final (self).spec_fat_masked(#[trigger] cs[i] as int)
                            == (if i + 1 < cs.len() {
                            cs[i + 1]
                        } else {
                            FAT_EOC_WRITE
                        })
                    &&& old(self).spec_fat_masked(old(self).root_cluster as int) != 0
                        ==> forall|i: int|
                        0 <= i < cs.len() ==> final (self).spec_cluster_bytes(
                            #[trigger] cs[i] as int,
                        ) == Fat32Driver::spec_cluster_payload(
                            data@,
                            i,
                            512 * old(self).sectors_per_cluster,
                        )
                    &&& forall|idx: int|
                        0 <= idx < old(self).drive@.len() && !in_fat_entries(
                            old(self).fat_start_sector as int,
                            cs,
                            idx,
                        ) && !in_cluster_spans(
                            old(self).data_start_sector as int,
                            old(self).sectors_per_cluster as int,
                            cs,
                            idx,
                        ) && !(old(self).spec_root_slot_pos(k) <= idx < old(
                            self,
                        ).spec_root_slot_pos(k) + 32) ==> final (self).drive@[idx] == old(
                            self,
                        ).drive@[idx]
                },
            r is Ok && old(self).spec_fat_masked(old(self).root_cluster as int) != 0
                && crate::dir::spec_canonical_83(filename.spec_bytes()) && spec_name83(
                filename.spec_bytes(),
            )[0] != NAME_END && spec_name83(filename.spec_bytes())[0] != NAME_FREE ==> ({
                let found = final (self).spec_dir_find(
                    filename.spec_bytes(),
                    final (self).root_cluster as int,
                    final (self).spec_walk_fuel(),
                );
                &&& found is Some
                &&& rec_name(found->0) == spec_name83(filename.spec_bytes())
                &&& rec_ext(found->0) == spec_ext83(filename.spec_bytes())
                &&& rec_attributes(found->0) == ATTR_ARCHIVE
                &&& rec_size(found->0) == data@.len()
                &&& final (self).spec_cluster_valid(rec_cluster(found->0) as int)
                &&& final (self).spec_file_content(found->0) == data@
            }),
    {
        let cluster_size: u32 = self.sectors_per_cluster * 512;
        let cs64: u64 = cluster_size as u64;
        let dlen: usize = data.len();
        let needed64: u64 = (dlen as u64 + cs64 - 1) / cs64;
        let ghost n: int = data@.len() as int;
        let ghost b: int = cluster_size as int;
        proof {
            assert(needed64 == (n + b - 1) / b);
            if n == 0 {
                vstd::arithmetic::div_mod::lemma_basic_div(b - 1, b);
            } else {
                vstd::arithmetic::div_mod::lemma_div_is_ordered(b, n + b - 1, b);
                vstd::arithmetic::div_mod::lemma_div_by_self(b);
                assert(n + b - 1 < b * (n + 1)) by (nonlinear_arith)
                    requires
                        n >= 1,
                        b >= 2,
                ;
                vstd::arithmetic::div_mod::lemma_multiply_divide_lt(n + b - 1, b, n + 1);
                assert(1 <= needed64 <= n);
            }
        }
        let clusters_needed: u32 = needed64 as u32;
        if clusters_needed == 0 {
            return Err(FatError::EmptyFile);
        }
        if self.file_exists(filename) {
            return Err(FatError::FileExists);
        }
        proof {
            vstd::arithmetic::div_mod::lemma_fundamental_div_mod(n + b - 1, b);
            vstd::arithmetic::div_mod::lemma_mod_division_less_than_divisor(n + b - 1, b);
            assert(b * (clusters_needed as int) <= n + b - 1);
            assert((clusters_needed - 1) * b < n) by (nonlinear_arith)
                requires
                    b * (clusters_needed as int) <= n + b - 1,
                    b >= 1,
                    clusters_needed >= 1,
            ;
        }
        proof {
            assert(clusters_needed == old(self).spec_clusters_needed(n));
        }
        let mut allocated: Vec<u32> = Vec::new();
        let mut i: u32 = 0;
        while i < clusters_needed
            invariant
                i <= clusters_needed,
                allocated@.len() == i as int,
                data@.len() > 0,
                clusters_needed == old(self).spec_clusters_needed(data@.len() as int),
                old(self).spec_free_count(2) == self.spec_free_count(2) + i,
                !(old(self).spec_dir_find(
                    filename.spec_bytes(),
                    old(self).root_cluster as int,
                    old(self).spec_walk_fuel(),
                ) is Some),
                self.wf(),
                self.same_geometry(old(self)),
                self.drive@.len() == old(self).drive@.len(),
                forall|j: int|
                    0 <= j < i ==> old(self).spec_cluster_valid(#[trigger] allocated@[j] as int)
                        && old(self).spec_fat_in_range(allocated@[j] as int),
                forall|j1: int, j2: int|
                    0 <= j1 < j2 < i ==> allocated@[j1] != allocated@[j2],
                forall|j: int|
                    0 <= j < i ==> old(self).spec_fat_masked(#[trigger] allocated@[j] as int) == 0,
                old(self).spec_first_fit_order(allocated@),
                forall|j: int|
                    0 <= j < i ==> self.spec_fat_raw(#[trigger] allocated@[j] as int) == (old(
                    self,
                    ).spec_fat_raw(allocated@[j] as int) & 0xf000_0000) | 0x0fff_ffff,
                forall|idx: int|
                    0 <= idx < self.drive@.len() && !in_fat_entries(
                        old(self).fat_start_sector as int,
                        allocated@,
                        idx,
                    ) ==> self.drive@[idx] == old(self).drive@[idx],
            decreases clusters_needed - i,
        {
            let ghost fs0: int = old(self).fat_start_sector as int;
            match self.find_free_cluster() {
                Some(c) => {
                    let ghost pre = allocated@;
                    proof {
                        reveal(in_fat_entries);
                        assert forall|j: int| 0 <= j < allocated@.len() implies allocated@[j] != c
                            by {
                            if allocated@[j] == c {
                                let raw = self.spec_fat_raw(c as int);
                                let oraw = old(self).spec_fat_raw(c as int);
                                assert(raw == (oraw & 0xf000_0000) | 0x0fff_ffff);
                                assert(((oraw & 0xf000_0000) | 0x0fff_ffff) & FAT_ENTRY_MASK != 0)
                                    by (bit_vector);
                                assert(self.spec_fat_masked(c as int) != 0);
                            }
                        }
                        let pos = self.spec_fat_pos(c as int);
                        assert(!in_fat_entries(fs0, allocated@, pos));
                        assert(!in_fat_entries(fs0, allocated@, pos + 1));
                        assert(!in_fat_entries(fs0, allocated@, pos + 2));
                        assert(!in_fat_entries(fs0, allocated@, pos + 3));
                        assert(old(self).spec_fat_raw(c as int) == self.spec_fat_raw(c as int));
                        // every smaller cluster still free in the starting
                        // state was already taken: the scan is first-fit
                        assert forall|j: int|
                            2 <= j < c && old(self).spec_fat_free(j) implies pre.contains(
                            j as u32,
                        ) by {
                            if !pre.contains(j as u32) {
                                old(self).lemma_fat_entry_in_device(j);
                                let jpos = self.spec_fat_pos(j);
                                assert(!in_fat_entries(fs0, pre, jpos)) by {
                                    if in_fat_entries(fs0, pre, jpos) {
                                        let xw = choose|xw: int|
                                            0 <= xw < pre.len() && 512 * fs0 + 4 * (
                                            #[trigger] pre[xw] as int) <= jpos < 512 * fs0 + 4 * (
                                            pre[xw] as int) + 4;
                                        assert(pre[xw] == j as u32);
                                    }
                                }
                                assert(!in_fat_entries(fs0, pre, jpos + 1)) by {
                                    if in_fat_entries(fs0, pre, jpos + 1) {
                                        let xw = choose|xw: int|
                                            0 <= xw < pre.len() && 512 * fs0 + 4 * (
                                            #[trigger] pre[xw] as int) <= jpos + 1 < 512 * fs0 + 4
                                                * (pre[xw] as int) + 4;
                                        assert(pre[xw] == j as u32);
                                    }
                                }
                                assert(!in_fat_entries(fs0, pre, jpos + 2)) by {
                                    if in_fat_entries(fs0, pre, jpos + 2) {
                                        let xw = choose|xw: int|
                                            0 <= xw < pre.len() && 512 * fs0 + 4 * (
                                            #[trigger] pre[xw] as int) <= jpos + 2 < 512 * fs0 + 4
                                                * (pre[xw] as int) + 4;
                                        assert(pre[xw] == j as u32);
                                    }
                                }
                                assert(!in_fat_entries(fs0, pre, jpos + 3)) by {
                                    if in_fat_entries(fs0, pre, jpos + 3) {
                                        let xw = choose|xw: int|
                                            0 <= xw < pre.len() && 512 * fs0 + 4 * (
                                            #[trigger] pre[xw] as int) <= jpos + 3 < 512 * fs0 + 4
                                                * (pre[xw] as int) + 4;
                                        assert(pre[xw] == j as u32);
                                    }
                                }
                                assert(self.spec_fat_raw(j) == old(self).spec_fat_raw(j));
                                assert(self.spec_fat_free(j));
                            }
                        }
                    }
                    let ghost before = self.drive@;
                    let ghost prev = *self;
                    allocated.push(c);
                    self.set_fat_entry(c, FAT_EOC_WRITE);
                    proof {
                        assert(FAT_EOC_WRITE & FAT_ENTRY_MASK == 0x0fff_ffffu32) by (bit_vector);
                        assert(allocated@ =~= pre.push(c));
                        assert forall|idx: int|
                            0 <= idx < self.drive@.len() && !in_fat_entries(fs0, allocated@, idx)
                            implies self.drive@[idx] == old(self).drive@[idx] by {
                            reveal(in_fat_entries);
                            assert(allocated@[allocated@.len() - 1] == c);
                            assert(!(old(self).spec_fat_pos(c as int) <= idx < old(
                                self,
                            ).spec_fat_pos(c as int) + 4));
                            assert(self.drive@[idx] == before[idx]);
                            assert(!in_fat_entries(fs0, pre, idx)) by {
                                reveal(in_fat_entries);
                                if in_fat_entries(fs0, pre, idx) {
                                    let jw = choose|jw: int|
                                        0 <= jw < pre.len() && 512 * fs0 + 4 * (
                                        #[trigger] pre[jw] as int) <= idx < 512 * fs0 + 4 * (
                                        pre[jw] as int) + 4;
                                    assert(allocated@[jw] == pre[jw]);
                                }
                            }
                            assert(before[idx] == old(self).drive@[idx]);
                        }
                        assert forall|j: int|
                            0 <= j < allocated@.len() implies self.spec_fat_raw(
                            #[trigger] allocated@[j] as int,
                        ) == (old(self).spec_fat_raw(allocated@[j] as int) & 0xf000_0000)
                            | 0x0fff_ffff by {
                            if j < pre.len() {
                                assert(allocated@[j] == pre[j]);
                                assert(pre[j] != c);
                            }
                        }
                        assert forall|j2: int|
                            2 <= j2 < prev.spec_alloc_limit() && j2 != c implies prev.spec_fat_masked(
                            j2,
                        ) == self.spec_fat_masked(j2) by {
                            prev.lemma_fat_entry_in_device(j2);
                        }
                        assert(!self.spec_fat_free(c as int)) by {
                            let oraw = prev.spec_fat_raw(c as int);
                            assert(self.spec_fat_raw(c as int) == (oraw & 0xf000_0000)
                                | 0x0fff_ffff);
                            assert(((oraw & 0xf000_0000) | 0x0fff_ffff) & FAT_ENTRY_MASK != 0)
                                by (bit_vector);
                        }
                        prev.lemma_free_count_mark(self, c as int, 2);
                        assert(old(self).spec_first_fit_order(allocated@)) by {
                            assert forall|i2: int, j: int|
                                #![trigger allocated@[i2], old(self).spec_fat_free(j)]
                                0 <= i2 < allocated@.len() && 2 <= j < allocated@[i2] && old(
                                    self,
                                ).spec_fat_free(j) implies allocated@.take(i2).contains(j as u32)
                                by {
                                if i2 < pre.len() {
                                    assert(allocated@[i2] == pre[i2]);
                                    assert(pre.take(i2).contains(j as u32));
                                    assert(allocated@.take(i2) =~= pre.take(i2));
                                } else {
                                    assert(allocated@[i2] == c);
                                    assert(pre.contains(j as u32));
                                    assert(allocated@.take(i2) =~= pre);
                                }
                            }
                        }
                    }
                },
                None => {
                    proof {
                        self.lemma_free_count_zero(2);
                        assert(old(self).spec_free_count(2) == i);
                    }
                    self.rollback_allocation(&allocated, Ghost(old(self).drive@));
                    return Err(FatError::NotEnoughFreeClusters);
                },
            }
            i = i + 1;
        }
        let ghost root_base: int = 512 * old(self).spec_cluster_lba(old(self).root_cluster as int);
        proof {
            assert(old(self).spec_free_count(2) >= clusters_needed);
            if old(self).spec_fat_masked(old(self).root_cluster as int) != 0 {
                assert forall|idx: int|
                    root_base <= idx < root_base + old(self).spec_cluster_size() implies self.drive@[idx]
                    == old(self).drive@[idx] by {
                    old(self).lemma_cluster_in_device(old(self).root_cluster as int);
                    assert(!in_fat_entries(old(self).fat_start_sector as int, allocated@, idx))
                        by {
                        reveal(in_fat_entries);
                        if in_fat_entries(old(self).fat_start_sector as int, allocated@, idx) {
                            let jw = choose|jw: int|
                                0 <= jw < allocated@.len() && 512 * (old(
                                    self,
                                ).fat_start_sector as int) + 4 * (#[trigger] allocated@[jw] as int)
                                    <= idx < 512 * (old(self).fat_start_sector as int) + 4 * (
                                allocated@[jw] as int) + 4;
                            old(self).lemma_fat_entry_in_device(allocated@[jw] as int);
                        }
                    }
                }
            }
        }
        let ghost post_alloc = *self;
        proof {
            assert forall|j: int|
                0 <= j < allocated@.len() implies self.spec_cluster_valid(
                #[trigger] allocated@[j] as int,
            ) && self.spec_fat_in_range(allocated@[j] as int) by {}
        }
        self.write_file_clusters(&allocated, data, cluster_size);
        proof {
            if old(self).spec_fat_masked(old(self).root_cluster as int) != 0 {
                let root = old(self).root_cluster as int;
                assert forall|j: int|
                    0 <= j < allocated@.len() implies allocated@[j] != old(self).root_cluster by {
                    assert(old(self).spec_fat_masked(allocated@[j] as int) == 0);
                }
                assert forall|idx: int|
                    root_base <= idx < root_base + old(self).spec_cluster_size()
                    implies self.drive@[idx] == old(self).drive@[idx] by {
                    old(self).lemma_cluster_in_device(root);
                    assert(!in_fat_entries(old(self).fat_start_sector as int, allocated@, idx))
                        by {
                        reveal(in_fat_entries);
                        if in_fat_entries(old(self).fat_start_sector as int, allocated@, idx) {
                            let jw = choose|jw: int|
                                0 <= jw < allocated@.len() && 512 * (old(
                                    self,
                                ).fat_start_sector as int) + 4 * (#[trigger] allocated@[jw] as int)
                                    <= idx < 512 * (old(self).fat_start_sector as int) + 4 * (
                                allocated@[jw] as int) + 4;
                            old(self).lemma_fat_entry_in_device(allocated@[jw] as int);
                        }
                    }
                    assert(!in_cluster_spans(
                        old(self).data_start_sector as int,
                        old(self).sectors_per_cluster as int,
                        allocated@,
                        idx,
                    )) by {
                        reveal(in_cluster_spans);
                        if in_cluster_spans(
                            old(self).data_start_sector as int,
                            old(self).sectors_per_cluster as int,
                            allocated@,
                            idx,
                        ) {
                            let jw = choose|jw: int|
                                0 <= jw < allocated@.len() && 512 * (old(
                                    self,
                                ).data_start_sector as int + ((#[trigger] allocated@[jw] as int)
                                    - 2) * (old(self).sectors_per_cluster as int)) <= idx < 512 * (
                                old(self).data_start_sector as int + ((allocated@[jw] as int) - 2)
                                    * (old(self).sectors_per_cluster as int)) + 512 * (old(
                                self,
                                ).sectors_per_cluster as int);
                            old(self).lemma_cluster_ranges_disjoint(allocated@[jw] as int, root);
                        }
                    }
                    assert(post_alloc.drive@[idx] == old(self).drive@[idx]);
                }
                // the root directory's slots read the same, so a free slot
                // exists now exactly when one existed at the start
                self.lemma_same_root_slots(*old(self));
            }
        }
        let first = allocated[0];
        let size32: u32 = data.len() as u32;
        let ghost mid = *self;
        match self.add_directory_entry(filename, first, size32) {
            Ok(()) => {
                proof {
                    let qb = filename.spec_bytes();
                    let k = choose|k: int|
                        {
                            &&& 0 <= k < 16 * mid.sectors_per_cluster
                            &&& mid.spec_root_slot_free(k)
                            &&& (forall|k2: int| 0 <= k2 < k ==> !mid.spec_root_slot_free(k2))
                            &&& rec_name(#[trigger] self.spec_root_record(k)) == spec_name83(qb)
                            &&& rec_ext(self.spec_root_record(k)) == spec_ext83(qb)
                            &&& rec_attributes(self.spec_root_record(k)) == ATTR_ARCHIVE
                            &&& rec_cluster(self.spec_root_record(k)) == first
                            &&& rec_size(self.spec_root_record(k)) == size32
                            &&& (forall|t: int|
                                12 <= t < 20 || 22 <= t < 26 ==> self.spec_root_record(k)[t] == 0)
                            &&& (forall|idx: int|
                                0 <= idx < mid.drive@.len() && !(mid.spec_root_slot_pos(k) <= idx
                                    < mid.spec_root_slot_pos(k) + 32) ==> self.drive@[idx]
                                    == mid.drive@[idx])
                        };
                    assert(self.spec_cluster_valid(first as int));
                    let cz = cluster_size as int;
                    let rootsafe = old(self).spec_fat_masked(old(self).root_cluster as int) != 0;
                    assert forall|v: int|
                        0 <= v < allocated@.len() implies mid.spec_cluster_valid(
                        #[trigger] allocated@[v] as int,
                    ) && mid.spec_fat_in_range(allocated@[v] as int) by {}
                    if rootsafe {
                        assert forall|j: int|
                            0 <= j < allocated@.len() implies allocated@[j] != mid.root_cluster
                            by {
                            assert(old(self).spec_fat_masked(allocated@[j] as int) == 0);
                        }
                    }
                    self.lemma_add_keeps_chain(mid, allocated@, k, rootsafe);
                    // outside the chain's FAT entries, its data clusters
                    // and the one written slot, the device is as it was
                    assert forall|idx: int|
                        0 <= idx < old(self).drive@.len() && !in_fat_entries(
                            old(self).fat_start_sector as int,
                            allocated@,
                            idx,
                        ) && !in_cluster_spans(
                            old(self).data_start_sector as int,
                            old(self).sectors_per_cluster as int,
                            allocated@,
                            idx,
                        ) && !(old(self).spec_root_slot_pos(k) <= idx < old(
                            self,
                        ).spec_root_slot_pos(k) + 32) implies self.drive@[idx] == old(
                        self,
                    ).drive@[idx] by {
                        assert(post_alloc.drive@[idx] == old(self).drive@[idx]);
                        assert(mid.drive@[idx] == post_alloc.drive@[idx]);
                        assert(self.drive@[idx] == mid.drive@[idx]);
                    }
                    if old(self).spec_fat_masked(old(self).root_cluster as int) != 0
                        && crate::dir::spec_canonical_83(qb) && spec_name83(qb)[0] != NAME_END
                        && spec_name83(qb)[0] != NAME_FREE {
                        self.lemma_create_lookup(*old(self), mid, qb, k);
                        // the walk has fuel for the whole chain
                        assert(clusters_needed <= self.spec_walk_fuel()) by {
                            old(self).lemma_free_count_bound(2);
                        }
                        assert forall|u: int|
                            0 <= u < allocated@.len() implies self.spec_cluster_valid(
                            #[trigger] allocated@[u] as int,
                        ) && self.spec_fat_in_range(allocated@[u] as int) by {}
                        self.lemma_chain_content(allocated@, data@, 0, self.spec_walk_fuel());
                        let all = self.spec_file_bytes(allocated@[0] as int, self.spec_walk_fuel());
                        assert(cz * (clusters_needed as int) >= data@.len()) by {
                            vstd::arithmetic::div_mod::lemma_fundamental_div_mod(n + b - 1, b);
                            vstd::arithmetic::div_mod::lemma_mod_division_less_than_divisor(
                                n + b - 1,
                                b,
                            );
                        }
                        assert(all.len() == (allocated@.len() - 0) * cz);
                        assert(rec_cluster(self.spec_root_record(k)) == allocated@[0]);
                        assert(rec_size(self.spec_root_record(k)) == data@.len());
                        assert(self.spec_file_content(self.spec_root_record(k)) =~= data@) by {
                            assert(data@.len() <= all.len()) by {
                                assert((allocated@.len() - 0) * cz == cz * (
                                clusters_needed as int)) by (nonlinear_arith)
                                    requires
                                        allocated@.len() == clusters_needed as int,
                                ;
                            }
                            assert forall|t: int| 0 <= t < data@.len() implies all[t]
                                == data@[t] by {
                                assert(0 * cz + t == t);
                            }
                        }
                    }
                }
                Ok(())
            },
            Err(e) => {
                proof {
                    if old(self).spec_fat_masked(old(self).root_cluster as int) != 0 {
                        assert forall|idx: int|
                            root_base <= idx < root_base + old(self).spec_cluster_size()
                            implies self.drive@[idx] == old(self).drive@[idx] by {
                            assert(self.drive@[idx] == mid.drive@[idx]);
                        }
                        self.lemma_same_root_slots(*old(self));
                    }
                }
                Err(e)
            },
        }
    }

    /// Steps of the first-fit uniqueness argument: two free, distinct,
    /// first-fit-ordered cluster lists of equal length agree on their
    /// first `i` entries.
    proof fn lemma_first_fit_unique_upto(&self, cs1: Seq<u32>, cs2: Seq<u32>, i: int)
        requires
            cs1.len() == cs2.len(),
            0 <= i <= cs1.len(),
            forall|v: int|
                0 <= v < cs1.len() ==> self.spec_cluster_valid(#[trigger] cs1[v] as int)
                    && self.spec_fat_free(cs1[v] as int),
            forall|v: int|
                0 <= v < cs2.len() ==> self.spec_cluster_valid(#[trigger] cs2[v] as int)
                    && self.spec_fat_free(cs2[v] as int),
            forall|v1: int, v2: int| 0 <= v1 < v2 < cs1.len() ==> cs1[v1] != cs1[v2],
            forall|v1: int, v2: int| 0 <= v1 < v2 < cs2.len() ==> cs2[v1] != cs2[v2],
            self.spec_first_fit_order(cs1),
            self.spec_first_fit_order(cs2),
        ensures
            forall|j: int| 0 <= j < i ==> cs1[j] == cs2[j],
        decreases i,
    {
        if i > 0 {
            self.lemma_first_fit_unique_upto(cs1, cs2, i - 1);
            let a = cs1[i - 1];
            let b = cs2[i - 1];
            if a != b {
                if b < a {
                    assert(self.spec_fat_free(b as int));
                    assert(cs1.take(i - 1).contains((b as int) as u32));
                    let jw = choose|jw: int|
                        0 <= jw < cs1.take(i - 1).len() && #[trigger] cs1.take(i - 1)[jw] == b;
                    assert(cs1[jw] == b);
                    assert(cs2[jw] == b);
                } else {
                    assert(self.spec_fat_free(a as int));
                    assert(cs2.take(i - 1).contains((a as int) as u32));
                    let jw = choose|jw: int|
                        0 <= jw < cs2.take(i - 1).len() && #[trigger] cs2.take(i - 1)[jw] == a;
                    assert(cs2[jw] == a);
                    assert(cs1[jw] == a);
                }
            }
        }
    }

    /// The allocator's choice is a function of the volume alone: two
    /// cluster lists of equal length that are free, pairwise distinct and
    /// in first-fit order are the same list. So after a rolled-back
    /// attempt — which restores the volume bit for bit — a retry that
    /// fits allocates exactly the clusters the failed attempt had marked.
    pub proof fn lemma_first_fit_unique(&self, cs1: Seq<u32>, cs2: Seq<u32>)
        requires
            cs1.len() == cs2.len(),
            forall|v: int|
                0 <= v < cs1.len() ==> self.spec_cluster_valid(#[trigger] cs1[v] as int)
                    && self.spec_fat_free(cs1[v] as int),
            forall|v: int|
                0 <= v < cs2.len() ==> self.spec_cluster_valid(#[trigger] cs2[v] as int)
                    && self.spec_fat_free(cs2[v] as int),
            forall|v1: int, v2: int| 0 <= v1 < v2 < cs1.len() ==> cs1[v1] != cs1[v2],
            forall|v1: int, v2: int| 0 <= v1 < v2 < cs2.len() ==> cs2[v1] != cs2[v2],
            self.spec_first_fit_order(cs1),
            self.spec_first_fit_order(cs2),
        ensures
            cs1 == cs2,
    {
        self.lemma_first_fit_unique_upto(cs1, cs2, cs1.len() as int);
        assert(cs1 =~= cs2);
    }

    /// Two volumes whose root-directory first cluster reads the same have
    /// the same slots: record for record, free for free, and a free slot
    /// exists in one exactly when it exists in the other.
    proof fn lemma_same_root_slots(&self, orig: Fat32Driver)
        requires
            orig.wf(),
            self.same_geometry(&orig),
            self.drive@.len() == orig.drive@.len(),
            forall|idx: int|
                512 * orig.spec_cluster_lba(orig.root_cluster as int) <= idx < 512
                    * orig.spec_cluster_lba(orig.root_cluster as int) + orig.spec_cluster_size()
                    ==> self.drive@[idx] == orig.drive@[idx],
        ensures
            forall|kx: int|
                0 <= kx < 16 * orig.sectors_per_cluster ==> (self.spec_root_slot_free(kx)
                    <==> orig.spec_root_slot_free(kx)),
            self.spec_root_has_free_slot() <==> orig.spec_root_has_free_slot(),
            forall|kx: int|
                0 <= kx < 16 * orig.sectors_per_cluster ==> self.spec_root_record(kx)
                    == orig.spec_root_record(kx),
    {
        let root = orig.root_cluster as int;
        let rb = 512 * orig.spec_cluster_lba(root);
        orig.lemma_cluster_in_device(root);
        assert(orig.spec_cluster_size() == 32 * (16 * (orig.sectors_per_cluster as int)));
        assert forall|kx: int|
            0 <= kx < 16 * orig.sectors_per_cluster implies (self.spec_root_slot_free(kx)
            <==> orig.spec_root_slot_free(kx)) && self.spec_root_record(kx)
            == orig.spec_root_record(kx) by {
            let pos = orig.spec_root_slot_pos(kx);
            assert(self.spec_root_slot_pos(kx) == pos);
            assert(pos == rb + 32 * kx);
            assert(pos + 32 <= rb + orig.spec_cluster_size());
            assert forall|t2: int|
                #![trigger self.drive@[pos + t2]]
                0 <= t2 < 32 implies self.drive@[pos + t2] == orig.drive@[pos + t2] by {
                assert(rb <= pos + t2 < rb + orig.spec_cluster_size());
            }
            assert(self.spec_root_record(kx) =~= orig.spec_root_record(kx));
            assert(self.drive@[pos] == orig.drive@[pos]);
        }
        if orig.spec_root_has_free_slot() {
            let kw = choose|kw: int|
                0 <= kw < 16 * orig.sectors_per_cluster && orig.spec_root_slot_free(kw);
            assert(self.spec_root_slot_free(kw));
        }
        if self.spec_root_has_free_slot() {
            let kw = choose|kw: int|
                0 <= kw < 16 * self.sectors_per_cluster && self.spec_root_slot_free(kw);
            assert(orig.spec_root_slot_free(kw));
        }
    }

    /// Writing a directory record into slot `k` of the root cluster leaves
    /// the FAT entries of any cluster list alone — the slot lies in the
    /// data region, every FAT entry below it — and, when none of the
    /// listed clusters is the root itself, their contents too.
    proof fn lemma_add_keeps_chain(
        &self,
        mid: Fat32Driver,
        cs: Seq<u32>,
        k: int,
        with_content: bool,
    )
        requires
            mid.wf(),
            self.wf(),
            self.same_geometry(&mid),
            self.drive@.len() == mid.drive@.len(),
            0 <= k < 16 * mid.sectors_per_cluster,
            forall|idx: int|
                0 <= idx < mid.drive@.len() && !(mid.spec_root_slot_pos(k) <= idx
                    < mid.spec_root_slot_pos(k) + 32) ==> self.drive@[idx] == mid.drive@[idx],
            forall|v: int|
                0 <= v < cs.len() ==> mid.spec_cluster_valid(#[trigger] cs[v] as int)
                    && mid.spec_fat_in_range(cs[v] as int),
            with_content ==> forall|v: int| 0 <= v < cs.len() ==> cs[v] != mid.root_cluster,
        ensures
            forall|v: int|
                0 <= v < cs.len() ==> self.spec_fat_masked(#[trigger] cs[v] as int)
                    == mid.spec_fat_masked(cs[v] as int),
            with_content ==> forall|v: int|
                0 <= v < cs.len() ==> self.spec_cluster_bytes(#[trigger] cs[v] as int)
                    == mid.spec_cluster_bytes(cs[v] as int),
    {
        let root = mid.root_cluster as int;
        let rb = 512 * mid.spec_cluster_lba(root);
        mid.lemma_cluster_in_device(root);
        assert(mid.spec_cluster_size() == 32 * (16 * (mid.sectors_per_cluster as int)));
        assert(rb <= mid.spec_root_slot_pos(k) && mid.spec_root_slot_pos(k) + 32 <= rb
            + mid.spec_cluster_size());
        assert forall|v: int|
            0 <= v < cs.len() implies self.spec_fat_masked(#[trigger] cs[v] as int)
            == mid.spec_fat_masked(cs[v] as int) by {
            mid.lemma_fat_entry_in_device(cs[v] as int);
            let vp = mid.spec_fat_pos(cs[v] as int);
            assert(self.spec_fat_pos(cs[v] as int) == vp);
            assert forall|t2: int|
                #![trigger self.drive@[vp + t2]]
                0 <= t2 < 4 implies self.drive@[vp + t2] == mid.drive@[vp + t2] by {
                assert(!(mid.spec_root_slot_pos(k) <= vp + t2 < mid.spec_root_slot_pos(k) + 32));
            }
            assert(self.spec_fat_raw(cs[v] as int) == mid.spec_fat_raw(cs[v] as int));
        }
        if with_content {
            assert forall|v: int|
                0 <= v < cs.len() implies self.spec_cluster_bytes(#[trigger] cs[v] as int)
                == mid.spec_cluster_bytes(cs[v] as int) by {
                mid.lemma_cluster_ranges_disjoint(cs[v] as int, root);
                mid.lemma_cluster_in_device(cs[v] as int);
                let vb = 512 * mid.spec_cluster_lba(cs[v] as int);
                assert(512 * self.spec_cluster_lba(cs[v] as int) == vb);
                assert forall|t2: int|
                    #![trigger self.drive@[vb + t2]]
                    0 <= t2 < mid.spec_cluster_size() implies self.drive@[vb + t2]
                    == mid.drive@[vb + t2] by {
                    assert(!(mid.spec_root_slot_pos(k) <= vb + t2 < mid.spec_root_slot_pos(k)
                        + 32));
                }
                assert(self.spec_cluster_bytes(cs[v] as int) =~= mid.spec_cluster_bytes(
                    cs[v] as int,
                ));
            }
        }
    }

    /// After a create has written its record into slot `k` of the root
    /// directory's first cluster — the earlier slots all taken, the rest of
    /// the root cluster as it was before the create — a scan for the
    /// record's plain 8.3 name finds exactly that record.
    proof fn lemma_create_lookup(&self, orig: Fat32Driver, mid: Fat32Driver, qb: Seq<u8>, k: int)
        requires
            orig.wf(),
            self.wf(),
            self.same_geometry(&orig),
            mid.same_geometry(&orig),
            self.drive@.len() == orig.drive@.len(),
            mid.drive@.len() == orig.drive@.len(),
            orig.spec_fat_masked(orig.root_cluster as int) != 0,
            crate::dir::spec_canonical_83(qb),
            spec_name83(qb)[0] != NAME_END,
            spec_name83(qb)[0] != NAME_FREE,
            !(orig.spec_dir_find(qb, orig.root_cluster as int, orig.spec_walk_fuel()) is Some),
            0 <= k < 16 * orig.sectors_per_cluster,
            forall|k2: int| 0 <= k2 < k ==> !mid.spec_root_slot_free(k2),
            rec_name(self.spec_root_record(k)) == spec_name83(qb),
            rec_ext(self.spec_root_record(k)) == spec_ext83(qb),
            rec_attributes(self.spec_root_record(k)) == ATTR_ARCHIVE,
            forall|idx: int|
                0 <= idx < mid.drive@.len() && !(mid.spec_root_slot_pos(k) <= idx
                    < mid.spec_root_slot_pos(k) + 32) ==> self.drive@[idx] == mid.drive@[idx],
            forall|idx: int|
                512 * orig.spec_cluster_lba(orig.root_cluster as int) <= idx < 512
                    * orig.spec_cluster_lba(orig.root_cluster as int) + orig.spec_cluster_size()
                    ==> mid.drive@[idx] == orig.drive@[idx],
        ensures
            ({
                let found = self.spec_dir_find(
                    qb,
                    self.root_cluster as int,
                    self.spec_walk_fuel(),
                );
                found == Some(self.spec_root_record(k))
            }),
    {
        let root = orig.root_cluster as int;
        let rb = 512 * orig.spec_cluster_lba(root);
        let cz = orig.spec_cluster_size();
        orig.lemma_cluster_in_device(root);
        let fdata = self.spec_cluster_bytes(root);
        let odata = orig.spec_cluster_bytes(root);
        assert(fdata.len() == cz && odata.len() == cz);
        // records other than k agree with the original volume
        assert forall|j: int|
            0 <= j < dir_rec_count(fdata) && j != k implies dir_rec(fdata, j) =~= dir_rec(
            odata,
            j,
        ) by {
            assert(32 * j + 32 <= 32 * dir_rec_count(fdata));
            assert(32 * (fdata.len() as int / 32) <= fdata.len());
            assert forall|t: int| 32 * j <= t < 32 * j + 32 implies fdata[t] == odata[t] by {
                assert(fdata[t] == self.drive@[rb + t]);
                assert(!(mid.spec_root_slot_pos(k) <= rb + t < mid.spec_root_slot_pos(k) + 32));
                assert(self.drive@[rb + t] == mid.drive@[rb + t]);
                assert(mid.drive@[rb + t] == orig.drive@[rb + t]);
            }
        }
        // the original scan found nothing in the root's first cluster
        assert(spec_scan_find(odata, qb, 0) is None);
        // the slots before k are taken: no sentinel among them
        assert(dir_rec_count(odata) == 16 * (orig.sectors_per_cluster as int)) by {
            assert(cz == 32 * (16 * (orig.sectors_per_cluster as int)));
            assert((32 * (16 * (orig.sectors_per_cluster as int))) / 32 == 16 * (
            orig.sectors_per_cluster as int)) by (nonlinear_arith);
        }
        assert forall|j: int| 0 <= j < k implies !rec_is_end(#[trigger] dir_rec(odata, j)) by {
            assert(32 * j + 32 <= 32 * dir_rec_count(odata));
            assert(32 * (odata.len() as int / 32) <= odata.len());
            assert(dir_rec(odata, j)[0] == orig.drive@[rb + 32 * j]);
            assert(mid.drive@[mid.spec_root_slot_pos(j)] == orig.drive@[rb + 32 * j]);
            assert(!mid.spec_root_slot_free(j));
        }
        lemma_scan_none_prefix(odata, qb, 0, k);
        // slot k of the final volume holds the new record
        assert(dir_rec(fdata, k) =~= self.spec_root_record(k)) by {
            assert(32 * k + 32 <= cz);
            assert forall|t: int| 32 * k <= t < 32 * k + 32 implies fdata[t] == self.drive@[rb
                + t] by {}
        }
        crate::dir::lemma_stored_name_displays(qb);
        assert(rec_is_used(dir_rec(fdata, k)));
        assert(rec_matches(dir_rec(fdata, k), qb));
        assert forall|j: int|
            0 <= j < k implies !rec_is_end(#[trigger] dir_rec(fdata, j)) && !(rec_is_used(
            dir_rec(fdata, j),
        ) && rec_matches(dir_rec(fdata, j), qb)) by {
            assert(dir_rec(fdata, j) =~= dir_rec(odata, j));
        }
        lemma_scan_finds_at(fdata, qb, 0, k);
        // one step of the chain walk: the first cluster already answers
        assert(self.spec_walk_fuel() >= 1);
        assert(self.spec_dir_find(qb, self.root_cluster as int, self.spec_walk_fuel()) == Some(
            dir_rec(fdata, k),
        ));
    }

    /// The bytes a freshly written file leaves in its `w`-th cluster: the
    /// matching slice of the data, zero-padded to a whole cluster.
    pub open spec fn spec_cluster_payload(data: Seq<u8>, w: int, cz: int) -> Seq<u8> {
        Seq::new(
            cz as nat,
            |t: int|
                if w * cz + t < data.len() {
                    data[w * cz + t]
                } else {
                    0u8
                },
        )
    }

    /// Walking the chain `cs[v] -> cs[v + 1] -> ... -> end-of-chain`, when
    /// each listed cluster holds its slice of the data and links to the
    /// next, yields the data from byte `v * cluster_size` on, zero-padded
    /// to whole clusters.
    proof fn lemma_chain_content(&self, cs: Seq<u32>, data: Seq<u8>, v: int, fuel: nat)
        requires
            self.wf(),
            0 <= v < cs.len(),
            fuel >= cs.len() - v,
            forall|u: int|
                0 <= u < cs.len() ==> self.spec_cluster_valid(#[trigger] cs[u] as int)
                    && self.spec_fat_in_range(cs[u] as int),
            forall|u: int|
                0 <= u < cs.len() ==> self.spec_cluster_bytes(#[trigger] cs[u] as int)
                    == Fat32Driver::spec_cluster_payload(data, u, self.spec_cluster_size()),
            forall|u: int|
                0 <= u < cs.len() ==> self.spec_fat_masked(#[trigger] cs[u] as int) == (if u + 1
                    < cs.len() {
                    cs[u + 1]
                } else {
                    FAT_EOC_WRITE
                }),
        ensures
            self.spec_file_bytes(cs[v] as int, fuel) =~= Seq::new(
                ((cs.len() - v) * self.spec_cluster_size()) as nat,
                |t: int|
                    if v * self.spec_cluster_size() + t < data.len() {
                        data[v * self.spec_cluster_size() + t]
                    } else {
                        0u8
                    },
            ),
        decreases cs.len() - v,
    {
        let cz = self.spec_cluster_size();
        let whole = Seq::new(
            ((cs.len() - v) * cz) as nat,
            |t: int|
                if v * cz + t < data.len() {
                    data[v * cz + t]
                } else {
                    0u8
                },
        );
        assert((cs.len() - v) * cz >= cz && (cs.len() - v) * cz == (cs.len() - (v + 1)) * cz + cz)
            by (nonlinear_arith)
            requires
                cz >= 512,
                v < cs.len(),
        ;
        if v + 1 < cs.len() {
            assert(cs[v + 1] <= FAT_MAX_CLUSTER);
            assert(self.spec_fat_masked(cs[v] as int) < FAT_EOC);
            self.lemma_chain_content(cs, data, v + 1, (fuel - 1) as nat);
            let rest = self.spec_file_bytes(cs[v + 1] as int, (fuel - 1) as nat);
            assert(self.spec_file_bytes(cs[v] as int, fuel) == self.spec_cluster_bytes(
                cs[v] as int,
            ) + rest);
            assert forall|t: int| 0 <= t < (cs.len() - v) * cz implies (self.spec_cluster_bytes(
                cs[v] as int,
            ) + rest)[t] == whole[t] by {
                assert((v + 1) * cz == v * cz + cz) by (nonlinear_arith);
                if t < cz {
                    assert(self.spec_cluster_bytes(cs[v] as int)[t]
                        == Fat32Driver::spec_cluster_payload(data, v, cz)[t]);
                } else {
                    assert(rest[t - cz] == whole[t]);
                }
            }
            assert(self.spec_file_bytes(cs[v] as int, fuel) =~= whole);
        } else {
            assert(self.spec_fat_masked(cs[v] as int) == FAT_EOC_WRITE);
            assert(self.spec_file_bytes(cs[v] as int, fuel) == self.spec_cluster_bytes(
                cs[v] as int,
            ) + Seq::<u8>::empty());
            assert forall|t: int| 0 <= t < (cs.len() - v) * cz implies self.spec_cluster_bytes(
                cs[v] as int,
            )[t] == whole[t] by {
                assert((cs.len() - v) * cz == cz) by (nonlinear_arith)
                    requires
                        v + 1 == cs.len(),
                        cz >= 512,
                ;
                assert(self.spec_cluster_bytes(cs[v] as int)[t]
                    == Fat32Driver::spec_cluster_payload(data, v, cz)[t]);
            }
            assert(self.spec_file_bytes(cs[v] as int, fuel) =~= whole) by {
                assert((cs.len() - v) * cz == cz) by (nonlinear_arith)
                    requires
                        v + 1 == cs.len(),
                        cz >= 512,
                ;
                assert(self.spec_file_bytes(cs[v] as int, fuel).len() == cz);
            }
        }
    }

    /// Writes the file's bytes into the allocated clusters — one cluster's
    /// slice at a time, the last zero-padded — and links the FAT chain:
    /// every cluster but the last points at the next, the last is marked
    /// end-of-chain. Nothing outside the allocated clusters' data spans
    /// and FAT entries changes.
    #[verifier::rlimit(80)]
    #[verifier::spinoff_prover]
    fn write_file_clusters(&mut self, allocated: &Vec<u32>, data: &[u8], cluster_size: u32)
        requires
            old(self).wf(),
            cluster_size == 512 * old(self).sectors_per_cluster,
            1 <= allocated@.len(),
            data@.len() <= u32::MAX,
            (allocated@.len() - 1) * (cluster_size as int) < data@.len(),
            forall|j: int|
                0 <= j < allocated@.len() ==> old(self).spec_cluster_valid(
                    #[trigger] allocated@[j] as int,
                ) && old(self).spec_fat_in_range(allocated@[j] as int),
            forall|j1: int, j2: int|
                0 <= j1 < j2 < allocated@.len() ==> allocated@[j1] != allocated@[j2],
        ensures
            final (self).wf(),
            final (self).same_geometry(old(self)),
            final (self).drive@.len() == old(self).drive@.len(),
            forall|v: int|
                0 <= v < allocated@.len() ==> final (self).spec_cluster_bytes(
                    #[trigger] allocated@[v] as int,
                ) == Fat32Driver::spec_cluster_payload(data@, v, cluster_size as int),
            forall|v: int|
                0 <= v < allocated@.len() ==> final (self).spec_fat_masked(
                    #[trigger] allocated@[v] as int,
                ) == (if v + 1 < allocated@.len() {
                    allocated@[v + 1]
                } else {
                    FAT_EOC_WRITE
                }),
            forall|idx: int|
                0 <= idx < old(self).drive@.len() && !in_fat_entries(
                    old(self).fat_start_sector as int,
                    allocated@,
                    idx,
                ) && !in_cluster_spans(
                    old(self).data_start_sector as int,
                    old(self).sectors_per_cluster as int,
                    allocated@,
                    idx,
                ) ==> final (self).drive@[idx] == old(self).drive@[idx],
    {
        let dlen: usize = data.len();
        let ghost fs: int = old(self).fat_start_sector as int;
        let ghost ds: int = old(self).data_start_sector as int;
        let ghost spc: int = old(self).sectors_per_cluster as int;
        let n_clusters: usize = allocated.len();
        let mut w: usize = 0;
        while w < n_clusters
            invariant
                w <= n_clusters,
                n_clusters == allocated@.len(),
                1 <= n_clusters,
                dlen == data@.len(),
                data@.len() <= u32::MAX,
                (n_clusters - 1) * (cluster_size as int) < data@.len(),
                cluster_size == 512 * self.sectors_per_cluster,
                512 <= cluster_size <= 130560,
                self.wf(),
                self.same_geometry(old(self)),
                self.drive@.len() == old(self).drive@.len(),
                fs == self.fat_start_sector as int,
                ds == self.data_start_sector as int,
                spc == self.sectors_per_cluster as int,
                forall|j: int|
                    0 <= j < allocated@.len() ==> old(self).spec_cluster_valid(
                        #[trigger] allocated@[j] as int,
                    ) && old(self).spec_fat_in_range(allocated@[j] as int),
                forall|j1: int, j2: int|
                    0 <= j1 < j2 < allocated@.len() ==> allocated@[j1] != allocated@[j2],
                forall|v: int|
                    0 <= v < w ==> self.spec_cluster_bytes(#[trigger] allocated@[v] as int)
                        == Fat32Driver::spec_cluster_payload(data@, v, cluster_size as int),
                forall|v: int|
                    0 <= v < w ==> self.spec_fat_masked(#[trigger] allocated@[v] as int) == (if v
                        + 1 < allocated@.len() {
                        allocated@[v + 1]
                    } else {
                        FAT_EOC_WRITE
                    }),
                forall|idx: int|
                    0 <= idx < self.drive@.len() && !in_fat_entries(fs, allocated@, idx)
                        && !in_cluster_spans(ds, spc, allocated@, idx) ==> self.drive@[idx] == old(
                    self,
                    ).drive@[idx],
            decreases n_clusters - w,
        {
            let c = allocated[w];
            proof {
                assert((w as int) * (cluster_size as int) <= (n_clusters - 1) * (
                cluster_size as int)) by (nonlinear_arith)
                    requires
                        w < n_clusters,
                        cluster_size >= 1,
                ;
            }
            let start: usize = w * (cluster_size as usize);
            let remaining: usize = dlen - start;
            let take: usize = if remaining < cluster_size as usize {
                remaining
            } else {
                cluster_size as usize
            };
            let mut buf: Vec<u8> = Vec::new();
            let mut t: usize = 0;
            while t < cluster_size as usize
                invariant
                    t <= cluster_size,
                    buf@.len() == t as int,
                    take <= cluster_size,
                    dlen == data@.len(),
                    start + take <= dlen,
                    start == (w as int) * (cluster_size as int),
                    take as int == if start + cluster_size <= dlen {
                        cluster_size as int
                    } else {
                        dlen - start
                    },
                    forall|t2: int|
                        0 <= t2 < t ==> buf@[t2] == (if start + t2 < data@.len() {
                            data@[start + t2]
                        } else {
                            0u8
                        }),
                decreases cluster_size as int - t,
            {
                if t < take {
                    buf.push(data[start + t]);
                } else {
                    buf.push(0u8);
                }
                t = t + 1;
            }
            proof {
                assert(buf@ =~= Fat32Driver::spec_cluster_payload(
                    data@,
                    w as int,
                    cluster_size as int,
                ));
            }
            let ghost before_write = *self;
            self.write_cluster(c, &buf);
            let ghost after_write = *self;
            if w + 1 < n_clusters {
                self.set_fat_entry(c, allocated[w + 1]);
            } else {
                self.set_fat_entry(c, FAT_EOC_WRITE);
            }
            proof {
                let cz = cluster_size as int;
                let span_base = 512 * old(self).spec_cluster_lba(c as int);
                let pos = old(self).spec_fat_pos(c as int);
                old(self).lemma_cluster_in_device(c as int);
                old(self).lemma_fat_entry_in_device(c as int);
                // the freshly written cluster holds its slice, and the FAT
                // update (four bytes below the data region) left it alone
                assert forall|t2: int| 0 <= t2 < cz implies self.drive@[span_base + t2] == buf@[t2]
                    by {
                    assert(after_write.drive@[span_base + t2] == buf@[t2]);
                    assert(self.drive@[span_base + t2] == after_write.drive@[span_base + t2]);
                }
                assert(self.spec_cluster_bytes(c as int) =~= buf@);
                // earlier clusters keep their contents: their spans are
                // disjoint from the written span and from the FAT region
                assert forall|v: int|
                    0 <= v < w implies self.spec_cluster_bytes(#[trigger] allocated@[v] as int)
                    == Fat32Driver::spec_cluster_payload(data@, v, cz) by {
                    let vb = 512 * old(self).spec_cluster_lba(allocated@[v] as int);
                    old(self).lemma_cluster_ranges_disjoint(allocated@[v] as int, c as int);
                    old(self).lemma_cluster_in_device(allocated@[v] as int);
                    assert forall|t2: int|
                        #![trigger self.drive@[vb + t2]]
                        0 <= t2 < cz implies self.drive@[vb + t2] == before_write.drive@[vb
                        + t2] by {
                        assert(after_write.drive@[vb + t2] == before_write.drive@[vb + t2]);
                    }
                    assert(self.spec_cluster_bytes(allocated@[v] as int)
                        =~= before_write.spec_cluster_bytes(allocated@[v] as int));
                }
                // links: the new entry took exactly the intended value,
                // earlier entries kept theirs
                assert(FAT_EOC_WRITE & FAT_ENTRY_MASK == 0x0fff_ffffu32) by (bit_vector);
                if w + 1 < n_clusters {
                    let nx = allocated@[w + 1];
                    assert(nx <= FAT_MAX_CLUSTER);
                    assert(forall|a: u32, x: u32|
                        x <= 0x0fff_fff7u32 ==> ((a & 0xf000_0000) | (x & FAT_ENTRY_MASK))
                            & FAT_ENTRY_MASK == x) by (bit_vector);
                } else {
                    assert(forall|a: u32|
                        ((a & 0xf000_0000) | (FAT_EOC_WRITE & FAT_ENTRY_MASK)) & FAT_ENTRY_MASK
                            == FAT_EOC_WRITE & FAT_ENTRY_MASK) by (bit_vector);
                }
                assert forall|v: int|
                    0 <= v < w implies self.spec_fat_masked(#[trigger] allocated@[v] as int) == (
                if v + 1 < allocated@.len() {
                    allocated@[v + 1]
                } else {
                    FAT_EOC_WRITE
                }) by {
                    let vp = old(self).spec_fat_pos(allocated@[v] as int);
                    old(self).lemma_fat_entry_in_device(allocated@[v] as int);
                    assert forall|t2: int|
                        #![trigger self.drive@[vp + t2]]
                        0 <= t2 < 4 implies self.drive@[vp + t2] == before_write.drive@[vp
                        + t2] by {
                        assert(after_write.drive@[vp + t2] == before_write.drive@[vp + t2]);
                    }
                    assert(self.spec_fat_raw(allocated@[v] as int) == before_write.spec_fat_raw(
                        allocated@[v] as int,
                    ));
                }
                // everything outside the allocated spans and entries is as
                // it was
                assert forall|idx: int|
                    0 <= idx < self.drive@.len() && !in_fat_entries(fs, allocated@, idx)
                        && !in_cluster_spans(ds, spc, allocated@, idx) implies self.drive@[idx]
                    == old(self).drive@[idx] by {
                    assert(!(span_base <= idx < span_base + cz)) by {
                        reveal(in_cluster_spans);
                        if span_base <= idx < span_base + cz {
                            assert(allocated@[w as int] == c);
                        }
                    }
                    assert(!(pos <= idx < pos + 4)) by {
                        reveal(in_fat_entries);
                        if pos <= idx < pos + 4 {
                            assert(allocated@[w as int] == c);
                        }
                    }
                    assert(after_write.drive@[idx] == before_write.drive@[idx]);
                    assert(self.drive@[idx] == after_write.drive@[idx]);
                }
            }
            w = w + 1;
        }
    }

    /// Undoes a partial allocation: every cluster in `allocated` — free in
    /// the image `orig`, and currently carrying the tentative end-of-chain
    /// mark that allocation wrote — is set free again, which restores the
    /// device bit-for-bit to `orig`.
    #[verifier::rlimit(100)]
    #[verifier::spinoff_prover]
    fn rollback_allocation(&mut self, allocated: &Vec<u32>, Ghost(orig): Ghost<Seq<u8>>)
        requires
            old(self).wf(),
            orig.len() == old(self).drive@.len(),
            forall|j: int|
                0 <= j < allocated@.len() ==> old(self).spec_fat_in_range(
                    #[trigger] allocated@[j] as int,
                ),
            forall|j1: int, j2: int|
                0 <= j1 < j2 < allocated@.len() ==> allocated@[j1] != allocated@[j2],
            forall|j: int|
                0 <= j < allocated@.len() ==> fat_raw_in(
                    orig,
                    old(self).fat_start_sector as int,
                    #[trigger] allocated@[j] as int,
                ) & FAT_ENTRY_MASK == 0,
            forall|j: int|
                0 <= j < allocated@.len() ==> old(self).spec_fat_raw(#[trigger] allocated@[j] as int)
                    == (fat_raw_in(orig, old(self).fat_start_sector as int, allocated@[j] as int)
                    & 0xf000_0000) | 0x0fff_ffff,
            forall|idx: int|
                0 <= idx < orig.len() && !in_fat_entries(
                    old(self).fat_start_sector as int,
                    allocated@,
                    idx,
                ) ==> old(self).drive@[idx] == orig[idx],
        ensures
            final (self).wf(),
            final (self).same_geometry(old(self)),
            final (self).drive@ == orig,
    {
        let ghost fs = old(self).fat_start_sector as int;
        let mut j: usize = 0;
        while j < allocated.len()
            invariant
                j <= allocated@.len(),
                self.wf(),
                self.same_geometry(old(self)),
                self.fat_start_sector as int == fs,
                self.drive@.len() == orig.len(),
                forall|jj: int|
                    0 <= jj < allocated@.len() ==> old(self).spec_fat_in_range(
                        #[trigger] allocated@[jj] as int,
                    ),
                forall|j1: int, j2: int|
                    0 <= j1 < j2 < allocated@.len() ==> allocated@[j1] != allocated@[j2],
                forall|jj: int|
                    0 <= jj < allocated@.len() ==> fat_raw_in(
                        orig,
                        fs,
                        #[trigger] allocated@[jj] as int,
                    ) & FAT_ENTRY_MASK == 0,
                forall|jj: int|
                    j <= jj < allocated@.len() ==> self.spec_fat_raw(#[trigger] allocated@[jj] as int)
                        == (fat_raw_in(orig, fs, allocated@[jj] as int) & 0xf000_0000)
                        | 0x0fff_ffff,
                forall|jj: int|
                    0 <= jj < j ==> self.spec_fat_raw(#[trigger] allocated@[jj] as int)
                        == fat_raw_in(orig, fs, allocated@[jj] as int) && self.drive@[self.spec_fat_pos(
                        allocated@[jj] as int,
                    )] == orig[self.spec_fat_pos(allocated@[jj] as int)] && self.drive@[self.spec_fat_pos(
                        allocated@[jj] as int,
                    ) + 1] == orig[self.spec_fat_pos(allocated@[jj] as int) + 1] && self.drive@[self.spec_fat_pos(
                        allocated@[jj] as int,
                    ) + 2] == orig[self.spec_fat_pos(allocated@[jj] as int) + 2] && self.drive@[self.spec_fat_pos(
                        allocated@[jj] as int,
                    ) + 3] == orig[self.spec_fat_pos(allocated@[jj] as int) + 3],
                forall|idx: int|
                    0 <= idx < self.drive@.len() && !in_fat_entries(fs, allocated@, idx)
                        ==> self.drive@[idx] == orig[idx],
            decreases allocated@.len() - j,
        {
            let c = allocated[j];
            let ghost oraw = fat_raw_in(orig, fs, c as int);
            let ghost praw = self.spec_fat_raw(c as int);
            self.set_fat_entry(c, 0);
            proof {
                assert(praw == (oraw & 0xf000_0000) | 0x0fff_ffff);
                assert((((oraw & 0xf000_0000) | 0x0fff_ffff) & 0xf000_0000) | (0u32
                    & FAT_ENTRY_MASK) == (oraw & 0xf000_0000)) by (bit_vector);
                assert(oraw & FAT_ENTRY_MASK == 0 ==> (oraw & 0xf000_0000) == oraw)
                    by (bit_vector);
                assert(self.spec_fat_raw(c as int) == oraw);
                let pos = self.spec_fat_pos(c as int);
                crate::codec::lemma_le32_bytes(orig[pos], orig[pos + 1], orig[pos + 2], orig[pos
                    + 3]);
                assert(self.drive@[pos] == u32_byte(oraw, 0));
                assert(self.drive@[pos + 1] == u32_byte(oraw, 1));
                assert(self.drive@[pos + 2] == u32_byte(oraw, 2));
                assert(self.drive@[pos + 3] == u32_byte(oraw, 3));
                assert forall|idx: int|
                    0 <= idx < self.drive@.len() && !in_fat_entries(fs, allocated@, idx)
                    implies self.drive@[idx] == orig[idx] by {
                    assert(!(pos <= idx < pos + 4)) by {
                        reveal(in_fat_entries);
                        if pos <= idx < pos + 4 {
                            assert(allocated@[j as int] == c);
                        }
                    }
                }
            }
            j = j + 1;
        }
        proof {
            assert forall|idx: int| 0 <= idx < self.drive@.len() implies self.drive@[idx]
                == orig[idx] by {
                reveal(in_fat_entries);
                if in_fat_entries(fs, allocated@, idx) {
                    let jj = choose|jj: int|
                        0 <= jj < allocated@.len() && 512 * fs + 4 * (
                        #[trigger] allocated@[jj] as int) <= idx < 512 * fs + 4 * (
                        allocated@[jj] as int) + 4;
                    let base = self.spec_fat_pos(allocated@[jj] as int);
                    assert(base == 512 * fs + 4 * (allocated@[jj] as int));
                    if idx == base {
                        assert(self.drive@[base] == orig[base]);
                    } else if idx == base + 1 {
                        assert(self.drive@[base + 1] == orig[base + 1]);
                    } else if idx == base + 2 {
                        assert(self.drive@[base + 2] == orig[base + 2]);
                    } else {
                        assert(self.drive@[base + 3] == orig[base + 3]);
                    }
                }
            }
            assert(self.drive@ =~= orig);
        }
    }

    /// The fields a freshly encoded entry shows through the record view.
    proof fn lemma_encode_fields(&self, e: DirectoryEntry, start_cluster: u32, size: u32)
        requires
            e.cluster_high == ((start_cluster >> 16) & 0xffff) as u16,
            e.cluster_low == (start_cluster & 0xffff) as u16,
            e.size == size,
        ensures
            rec_name(crate::dir::spec_encode(e)) == e.name@,
            rec_ext(crate::dir::spec_encode(e)) == e.ext@,
            rec_attributes(crate::dir::spec_encode(e)) == e.attributes,
            rec_cluster(crate::dir::spec_encode(e)) == start_cluster,
            rec_size(crate::dir::spec_encode(e)) == size,
    {
        let enc = crate::dir::spec_encode(e);
        assert(enc.len() == 32);
        assert_seqs_equal!(rec_name(enc) == e.name@);
        assert_seqs_equal!(rec_ext(enc) == e.ext@);
        assert(rec_attributes(enc) == e.attributes);
        crate::codec::lemma_word_roundtrip(e.cluster_low);
        crate::codec::lemma_word_roundtrip(e.cluster_high);
        assert(enc[26] == crate::codec::word_lo(e.cluster_low) && enc[27]
            == crate::codec::word_hi(e.cluster_low));
        assert(enc[20] == crate::codec::word_lo(e.cluster_high) && enc[21]
            == crate::codec::word_hi(e.cluster_high));
        assert(rec_cluster(enc) == e.cluster_low + 0x10000 * (e.cluster_high as int));
        assert(((start_cluster & 0xffff) as u16) + 0x10000 * ((((start_cluster >> 16)
            & 0xffff) as u16) as int) == start_cluster) by (bit_vector);
        assert(enc[28] == u32_byte(e.size, 0) && enc[29] == u32_byte(e.size, 1) && enc[30]
            == u32_byte(e.size, 2) && enc[31] == u32_byte(e.size, 3));
        crate::codec::lemma_u32_bytes_roundtrip(e.size);
    }

    /// How many whole clusters the data region holds.
    pub fn total_clusters(&self) -> (n: u32)
        requires
            self.wf(),
        ensures
            n == self.spec_max_cluster() - 2,
    {
        let total = self.drive.total_sectors();
        if total <= self.data_start_sector {
            return 0;
        }
        (total - self.data_start_sector) / self.sectors_per_cluster
    }
}

} // verus!
