use ferros_core::device::BlockDevice;
use ferros_core::dir::{format_83, DirectoryEntry};
use ferros_core::fat::{Fat32Driver, FatError};

fn put_le16(img: &mut Vec<u8>, off: usize, v: u16) {
    img[off] = (v & 0xff) as u8;
    img[off + 1] = (v >> 8) as u8;
}

fn put_le32(img: &mut Vec<u8>, off: usize, v: u32) {
    img[off] = (v & 0xff) as u8;
    img[off + 1] = ((v >> 8) & 0xff) as u8;
    img[off + 2] = ((v >> 16) & 0xff) as u8;
    img[off + 3] = ((v >> 24) & 0xff) as u8;
}

/// Writes a raw FAT entry into an image whose FAT starts at `fat_start`.
fn put_fat(img: &mut Vec<u8>, fat_start: u32, cluster: u32, raw: u32) {
    put_le32(img, (512 * fat_start + 4 * cluster) as usize, raw);
}

fn get_fat_raw(img: &[u8], fat_start: u32, cluster: u32) -> u32 {
    let off = (512 * fat_start + 4 * cluster) as usize;
    img[off] as u32
        | ((img[off + 1] as u32) << 8)
        | ((img[off + 2] as u32) << 16)
        | ((img[off + 3] as u32) << 24)
}

/// A blank FAT32 image: boot sector fields at their documented offsets,
/// the root directory cluster marked end-of-chain, everything else zero.
fn blank_image(total_sectors: u32, spc: u8, reserved: u16, fats: u8, spf: u32) -> Vec<u8> {
    let mut img = vec![0u8; (total_sectors as usize) * 512];
    put_le16(&mut img, 11, 512); // bytes per sector
    img[13] = spc;
    put_le16(&mut img, 14, reserved);
    img[16] = fats;
    put_le32(&mut img, 36, spf);
    put_le32(&mut img, 44, 2); // root cluster
    put_fat(&mut img, reserved as u32, 2, 0x0fff_ffff); // root: end of chain
    img
}

fn mount(img: Vec<u8>) -> Fat32Driver {
    let device = BlockDevice::from_bytes(img).unwrap();
    Fat32Driver::new(device).unwrap()
}

/// A 32-byte directory record.
fn dir_record(name: &[u8; 8], ext: &[u8; 3], attr: u8, cluster: u32, size: u32) -> Vec<u8> {
    let mut rec = vec![0u8; 32];
    rec[..8].copy_from_slice(name);
    rec[8..11].copy_from_slice(ext);
    rec[11] = attr;
    put_le16(&mut rec, 20, (cluster >> 16) as u16);
    put_le16(&mut rec, 26, (cluster & 0xffff) as u16);
    put_le32(&mut rec, 28, size);
    rec
}

fn put_record(img: &mut Vec<u8>, sector: u32, slot: usize, rec: &[u8]) {
    let base = (512 * sector) as usize + 32 * slot;
    img[base..base + 32].copy_from_slice(rec);
}

/// Every byte of the mounted volume, read back through the device.
fn dump(v: &Fat32Driver) -> Vec<u8> {
    let mut out = Vec::new();
    let total = v.drive.total_sectors();
    for lba in 0..total {
        out.extend_from_slice(&v.drive.read_sector_bytes(lba));
    }
    out
}

#[test]
fn mount_geometry_derivation() {
    // reserved = 32, two FATs of 500 sectors: data starts at 32 + 2*500.
    let mut img = vec![0u8; 1100 * 512];
    put_le16(&mut img, 11, 512);
    img[13] = 1;
    put_le16(&mut img, 14, 32);
    img[16] = 2;
    put_le32(&mut img, 36, 500);
    put_le32(&mut img, 44, 2);
    put_fat(&mut img, 32, 2, 0x0fff_ffff);
    let v = mount(img);
    assert_eq!(v.fat_start_sector, 32);
    assert_eq!(v.data_start_sector, 1032);
    assert_eq!(v.sectors_per_cluster, 1);
    assert_eq!(v.root_cluster, 2);
}

#[test]
fn mount_rejects_unsupported_sector_size() {
    let mut img = blank_image(64, 1, 1, 1, 1);
    put_le16(&mut img, 11, 1024);
    let device = BlockDevice::from_bytes(img).unwrap();
    assert!(matches!(
        Fat32Driver::new(device),
        Err(FatError::UnsupportedGeometry)
    ));
}

#[test]
fn chain_termination_boundary() {
    let mut img = blank_image(64, 1, 1, 1, 1);
    put_fat(&mut img, 1, 5, 0x0fff_fff8); // lowest end-of-chain value
    put_fat(&mut img, 1, 6, 0x0fff_fff7); // one below: still a link
    put_fat(&mut img, 1, 7, 0xf000_0003); // reserved top bits are masked off
    put_fat(&mut img, 1, 8, 0xffff_ffff); // masked value is end-of-chain
    let v = mount(img);
    assert_eq!(v.next_cluster(5), None);
    assert_eq!(v.next_cluster(6), Some(0x0fff_fff7));
    assert_eq!(v.next_cluster(7), Some(3));
    assert_eq!(v.next_cluster(8), None);
}

#[test]
fn fat_entry_update_preserves_reserved_bits() {
    let mut img = blank_image(64, 1, 1, 1, 1);
    put_fat(&mut img, 1, 6, 0xa000_0000);
    let mut v = mount(img);
    v.set_fat_entry(6, 3);
    assert_eq!(v.get_fat_entry(6), 3);
    assert_eq!(get_fat_raw(&dump(&v), 1, 6), 0xa000_0003);
}

#[test]
fn directory_scan_stops_at_end_sentinel() {
    let mut img = blank_image(64, 1, 1, 1, 1);
    // Root at cluster 2 = sector 2: [valid, deleted, long-name, end, valid].
    let mut deleted = dir_record(b"GONE    ", b"TXT", 0x20, 4, 1);
    deleted[0] = 0xe5;
    put_record(&mut img, 2, 0, &dir_record(b"FOO     ", b"TXT", 0x20, 3, 1));
    put_record(&mut img, 2, 1, &deleted);
    put_record(&mut img, 2, 2, &dir_record(b"X       ", b"   ", 0x0f, 0, 0));
    // slot 3 stays zero: the end sentinel
    put_record(&mut img, 2, 4, &dir_record(b"BAR     ", b"TXT", 0x20, 5, 1));
    let v = mount(img);
    let names = v.list_root();
    assert_eq!(names, vec!["FOO.TXT".to_string()]);
    assert!(v.file_exists("FOO.TXT"));
    assert!(!v.file_exists("BAR.TXT"));
}

#[test]
fn file_lookup_is_case_insensitive() {
    let mut img = blank_image(64, 1, 1, 1, 1);
    put_record(&mut img, 2, 0, &dir_record(b"FOO     ", b"TXT", 0x20, 3, 1));
    let v = mount(img);
    assert!(v.file_exists("foo.txt"));
    assert!(v.file_exists("Foo.Txt"));
    assert!(!v.file_exists("FOO.TX"));
}

#[test]
fn read_file_follows_chain_and_truncates() {
    let mut img = blank_image(64, 1, 1, 1, 1);
    put_record(&mut img, 2, 0, &dir_record(b"LOG     ", b"BIN", 0x20, 3, 600));
    put_fat(&mut img, 1, 3, 4); // cluster 3 links to 4
    put_fat(&mut img, 1, 4, 0x0fff_ffff);
    for i in 0..512 {
        img[512 * 3 + i] = (i % 251) as u8; // cluster 3 = sector 3
    }
    for i in 0..512 {
        img[512 * 4 + i] = 0xaa;
    }
    let v = mount(img);
    let data = v.read_file("LOG.BIN").unwrap();
    assert_eq!(data.len(), 600);
    for i in 0..512 {
        assert_eq!(data[i], (i % 251) as u8);
    }
    for i in 512..600 {
        assert_eq!(data[i], 0xaa);
    }
    assert_eq!(v.read_file("MISSING.BIN"), None);
}

#[test]
fn create_then_read_one_byte() {
    let mut v = mount(blank_image(64, 1, 1, 1, 1));
    assert_eq!(v.create_file("A.TXT", &[7u8]), Ok(()));
    assert_eq!(v.read_file("A.TXT"), Some(vec![7u8]));
    assert_eq!(v.read_file("a.txt"), Some(vec![7u8]));
    assert_eq!(v.list_root(), vec!["A.TXT".to_string()]);
}

#[test]
fn create_then_read_exactly_one_cluster() {
    let mut v = mount(blank_image(64, 1, 1, 1, 1));
    let bytes: Vec<u8> = (0..512u32).map(|i| (i % 199) as u8).collect();
    assert_eq!(v.create_file("A.TXT", &bytes), Ok(()));
    assert_eq!(v.read_file("A.TXT"), Some(bytes));
}

#[test]
fn create_then_read_one_cluster_plus_one() {
    let mut v = mount(blank_image(64, 1, 1, 1, 1));
    let bytes: Vec<u8> = (0..513u32).map(|i| (i % 97) as u8).collect();
    assert_eq!(v.create_file("A.TXT", &bytes), Ok(()));
    assert_eq!(v.read_file("A.TXT"), Some(bytes));
}

#[test]
fn create_then_read_several_clusters() {
    let mut v = mount(blank_image(64, 2, 1, 1, 1));
    let bytes: Vec<u8> = (0..5000u32).map(|i| (i % 233) as u8).collect();
    assert_eq!(v.create_file("BIG.BIN", &bytes), Ok(()));
    assert_eq!(v.read_file("BIG.BIN"), Some(bytes));
}

#[test]
fn create_rejects_empty_file() {
    let mut v = mount(blank_image(64, 1, 1, 1, 1));
    let before = dump(&v);
    assert_eq!(v.create_file("A.TXT", &[]), Err(FatError::EmptyFile));
    assert_eq!(dump(&v), before);
}

#[test]
fn duplicate_name_rejected_without_mutation() {
    let mut v = mount(blank_image(64, 1, 1, 1, 1));
    assert_eq!(v.create_file("A.TXT", b"first"), Ok(()));
    let before = dump(&v);
    assert_eq!(v.create_file("A.TXT", b"second"), Err(FatError::FileExists));
    assert_eq!(dump(&v), before);
    assert_eq!(v.create_file("a.txt", b"second"), Err(FatError::FileExists));
    assert_eq!(dump(&v), before);
    assert_eq!(v.read_file("A.TXT"), Some(b"first".to_vec()));
}

#[test]
fn allocation_rollback_restores_fat() {
    // data region: clusters 2..8; root takes 2, so five are free.
    let mut v = mount(blank_image(8, 1, 1, 1, 1));
    let before = dump(&v);
    let six_clusters = vec![1u8; 6 * 512];
    assert_eq!(
        v.create_file("BIG.BIN", &six_clusters),
        Err(FatError::NotEnoughFreeClusters)
    );
    // every tentatively marked cluster is free (0) again — the image is
    // bit-for-bit what it was
    assert_eq!(dump(&v), before);
    // and a request that fits reuses those clusters
    let five_clusters: Vec<u8> = (0..5 * 512u32).map(|i| (i % 241) as u8).collect();
    assert_eq!(v.create_file("FITS.BIN", &five_clusters), Ok(()));
    assert_eq!(v.read_file("FITS.BIN"), Some(five_clusters));
}

#[test]
fn invalid_names_rejected() {
    let mut v = mount(blank_image(64, 1, 1, 1, 1));
    assert_eq!(
        v.create_file("TOOLONGNAME.TXT", b"x"),
        Err(FatError::InvalidName)
    );
    assert_eq!(v.create_file("A.LONGX", b"x"), Err(FatError::InvalidName));
    // anything after a second dot is ignored, as the driver documents
    assert_eq!(v.create_file("a.b.c", b"x"), Ok(()));
    assert_eq!(v.read_file("A.B"), Some(b"x".to_vec()));
}

#[test]
fn root_directory_full() {
    let mut v = mount(blank_image(32, 1, 1, 1, 1));
    for i in 0..16 {
        let name = format!("F{}.TXT", i);
        assert_eq!(v.create_file(&name, b"x"), Ok(()));
    }
    assert_eq!(
        v.create_file("LAST.TXT", b"x"),
        Err(FatError::RootDirectoryFull)
    );
}

#[test]
fn root_directory_slot_in_second_sector_of_first_cluster() {
    // two sectors per cluster: the root's first cluster holds 32 slots.
    // With its first sector full, a create must use the 17th slot, not
    // report the directory full.
    let mut img = blank_image(64, 2, 1, 1, 1);
    for slot in 0..16usize {
        let name: [u8; 8] = [
            b'F',
            b'0' + (slot / 10) as u8,
            b'0' + (slot % 10) as u8,
            b' ',
            b' ',
            b' ',
            b' ',
            b' ',
        ];
        let rec = dir_record(&name, b"TXT", 0x20, 4, 1);
        put_record(&mut img, 2, slot, &rec);
    }
    let mut v = mount(img);
    assert_eq!(v.create_file("NEW.TXT", b"x"), Ok(()));
    assert!(v.file_exists("NEW.TXT"));
    assert_eq!(v.read_file("NEW.TXT"), Some(b"x".to_vec()));
    assert_eq!(v.list_root().len(), 17);
}

#[test]
fn find_free_cluster_first_fit() {
    let mut img = blank_image(64, 1, 1, 1, 1);
    put_fat(&mut img, 1, 3, 0x0fff_ffff);
    put_fat(&mut img, 1, 4, 0x0fff_ffff);
    let v = mount(img);
    assert_eq!(v.find_free_cluster(), Some(5));
    assert_eq!(v.total_clusters(), 62);
}

#[test]
fn directory_entry_decoding() {
    let rec = dir_record(b"NOTE    ", b"MD ", 0x20, 0x0001_0005, 42);
    let data = rec.clone();
    let e = DirectoryEntry::parse(&data, 0);
    assert!(!e.is_free());
    assert!(!e.is_end());
    assert!(!e.is_long_name());
    assert_eq!(e.get_cluster(), 0x0001_0005);
    assert_eq!(e.size, 42);
    assert_eq!(e.get_filename(), "NOTE.MD");
    assert_eq!(e.encode(), rec);
}

#[test]
fn directory_entry_markers() {
    let mut rec = dir_record(b"X       ", b"   ", 0x0f, 0, 0);
    let e = DirectoryEntry::parse(&rec, 0);
    assert!(e.is_long_name());
    rec[0] = 0xe5;
    assert!(DirectoryEntry::parse(&rec, 0).is_free());
    rec[0] = 0x00;
    assert!(DirectoryEntry::parse(&rec, 0).is_end());
}

#[test]
fn filename_without_extension() {
    let rec = dir_record(b"KERNEL  ", b"   ", 0x20, 3, 1);
    let e = DirectoryEntry::parse(&rec, 0);
    assert_eq!(e.get_filename(), "KERNEL");
}

#[test]
fn format_83_cases() {
    assert_eq!(format_83(b"readme.txt"), Some((*b"README  ", *b"TXT")));
    assert_eq!(format_83(b"A"), Some((*b"A       ", *b"   ")));
    assert_eq!(format_83(b"a.b.cdef"), Some((*b"A       ", *b"B  ")));
    assert_eq!(format_83(b"TOOLONGNAME.TXT"), None);
    assert_eq!(format_83(b"A.LONGX"), None);
}
