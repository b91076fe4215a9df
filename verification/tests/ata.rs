use ferros_core::ata::{
    classify_status, identify_select_byte, lba_to_registers, status_busy,
    total_sectors_from_identify, Bus, StatusClass, CMD_IDENTIFY, CMD_READ_SECTORS,
    CMD_WRITE_SECTORS, SECTOR_SIZE, SECTOR_WORDS,
};
use ferros_core::codec::{bytes_to_sector, sector_to_bytes};
use ferros_core::device::{BlockDevice, DeviceError};

#[test]
fn bus_base_ports() {
    assert_eq!(Bus::Primary.base_port(), 0x1f0);
    assert_eq!(Bus::Secondary.base_port(), 0x170);
}

#[test]
fn command_bytes() {
    assert_eq!(CMD_READ_SECTORS, 0x20);
    assert_eq!(CMD_WRITE_SECTORS, 0x30);
    assert_eq!(CMD_IDENTIFY, 0xec);
    assert_eq!(SECTOR_SIZE, 512);
    assert_eq!(SECTOR_WORDS, 256);
}

#[test]
fn status_classification() {
    // ERR set fails the transfer, whatever else is set.
    assert_eq!(classify_status(0x01), StatusClass::Failed);
    assert_eq!(classify_status(0x89), StatusClass::Failed);
    // BSY clear and DRQ set: ready to move data.
    assert_eq!(classify_status(0x08), StatusClass::Ready);
    assert_eq!(classify_status(0x48), StatusClass::Ready);
    // Still busy, or not yet ready.
    assert_eq!(classify_status(0x80), StatusClass::Busy);
    assert_eq!(classify_status(0x88), StatusClass::Busy);
    assert_eq!(classify_status(0x00), StatusClass::Busy);
    assert!(status_busy(0x80));
    assert!(!status_busy(0x48));
}

#[test]
fn lba_register_split() {
    let (select, low, mid, high) = lba_to_registers(true, 0x0abc_de9f);
    assert_eq!(select, 0xea);
    assert_eq!(low, 0x9f);
    assert_eq!(mid, 0xde);
    assert_eq!(high, 0xbc);
    let (select, low, mid, high) = lba_to_registers(false, 0);
    assert_eq!(select, 0xf0);
    assert_eq!((low, mid, high), (0, 0, 0));
    // The four registers carry exactly the low 28 bits.
    let lba: u32 = 0xfabc_1234;
    let (select, low, mid, high) = lba_to_registers(true, lba);
    let rejoined: u32 =
        low as u32 | ((mid as u32) << 8) | ((high as u32) << 16) | (((select & 0x0f) as u32) << 24);
    assert_eq!(rejoined, lba & 0x0fff_ffff);
}

#[test]
fn identify_select() {
    assert_eq!(identify_select_byte(true), 0xa0);
    assert_eq!(identify_select_byte(false), 0xb0);
}

#[test]
fn identify_total_sectors() {
    let mut words = vec![0u16; 256];
    words[60] = 0x1000;
    words[61] = 0x0001;
    assert_eq!(total_sectors_from_identify(&words), 0x0001_1000);
}

#[test]
fn word_byte_bridging() {
    let words: Vec<u16> = vec![0x3412, 0xcdab];
    let bytes = sector_to_bytes(&words);
    assert_eq!(bytes, vec![0x12, 0x34, 0xab, 0xcd]);
    let back = bytes_to_sector(&bytes);
    assert_eq!(back, words);
}

#[test]
fn device_read_write_roundtrip() {
    let mut d = BlockDevice::new(4);
    assert_eq!(d.total_sectors(), 4);
    let data: Vec<u16> = (0..256u32).map(|i| (i * 3) as u16).collect();
    assert_eq!(d.write(2, 1, &data), Ok(()));
    let mut target = vec![0u16; 256];
    assert_eq!(d.read(2, 1, &mut target), Ok(()));
    assert_eq!(target, data);
    let two: Vec<u16> = (0..512u32).map(|i| (i ^ 0x55aa) as u16).collect();
    assert_eq!(d.write(1, 2, &two), Ok(()));
    let mut back = vec![0u16; 512];
    assert_eq!(d.read(1, 2, &mut back), Ok(()));
    assert_eq!(back, two);
}

#[test]
fn device_size_mismatch() {
    let mut d = BlockDevice::new(4);
    let mut target = vec![0u16; 100];
    assert_eq!(d.read(0, 1, &mut target), Err(DeviceError::SizeMismatch));
    let data = vec![0u16; 100];
    assert_eq!(d.write(0, 1, &data), Err(DeviceError::SizeMismatch));
}

#[test]
fn device_out_of_range() {
    let mut d = BlockDevice::new(4);
    let mut target = vec![0u16; 256];
    assert_eq!(d.read(4, 1, &mut target), Err(DeviceError::DriveError));
    assert_eq!(d.read(3, 1, &mut target), Ok(()));
    let data = vec![0u16; 512];
    assert_eq!(d.write(3, 2, &data), Err(DeviceError::DriveError));
}

#[test]
fn device_from_bytes() {
    assert!(matches!(
        BlockDevice::from_bytes(vec![0u8; 100]),
        Err(DeviceError::SizeMismatch)
    ));
    match BlockDevice::from_bytes(vec![0u8; 1024]) {
        Ok(d) => assert_eq!(d.total_sectors(), 2),
        Err(_) => panic!("a two-sector image must be accepted"),
    }
}
