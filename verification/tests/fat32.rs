use rust_kernel::fs::fat32::{
    identify_sector_count, parse_boot_sector, parse_directory_entry, Disk, DiskDriver,
    FileSystem, MemoryDisk,
};
use rust_kernel::fs::FileSystem as FileSystemTrait;

fn sector(bytes: &[(usize, u8)]) -> Vec<u8> {
    let mut s = vec![0u8; 512];
    for (off, b) in bytes {
        s[*off] = *b;
    }
    s
}

/// A tiny FAT32 volume: 512-byte sectors, 1 sector per cluster,
/// 32 reserved sectors, two 1-sector FATs, root directory in cluster 2,
/// and one 600-byte file HELLO.TXT in clusters 3 and 4.
fn sample_volume() -> MemoryDisk {
    let mut disk = MemoryDisk::new(512, 40);
    let boot = sector(&[
        (11, 0x00), (12, 0x02), // 512 bytes per sector
        (13, 1),                // 1 sector per cluster
        (14, 32), (15, 0),      // 32 reserved sectors
        (16, 2),                // 2 FATs
        (36, 1), (37, 0), (38, 0), (39, 0), // 1 sector per FAT
        (44, 2), (45, 0), (46, 0), (47, 0), // root directory cluster 2
    ]);
    disk.write_sector(0, &boot).unwrap();
    // FAT: cluster 2 end-of-chain; cluster 3 -> 4; cluster 4 end-of-chain
    let fat = sector(&[
        (8, 0xF8), (9, 0xFF), (10, 0xFF), (11, 0x0F),
        (12, 0x04), (13, 0x00), (14, 0x00), (15, 0x00),
        (16, 0xF8), (17, 0xFF), (18, 0xFF), (19, 0x0F),
    ]);
    disk.write_sector(32, &fat).unwrap();
    // root directory (cluster 2 = sector 34): one entry, HELLO.TXT
    let mut root = vec![0u8; 512];
    root[0..8].copy_from_slice(b"HELLO   ");
    root[8..11].copy_from_slice(b"TXT");
    root[11] = 0x20; // archive attribute: a regular file
    root[26] = 3; // first cluster low
    root[28] = 0x58; // file size 600 = 0x258
    root[29] = 0x02;
    disk.write_sector(34, &root).unwrap();
    // file data: 512 bytes 'A' in cluster 3, 88 bytes 'B' in cluster 4
    disk.write_sector(35, &vec![b'A'; 512]).unwrap();
    let mut tail = vec![0u8; 512];
    for k in 0..88 {
        tail[k] = b'B';
    }
    disk.write_sector(36, &tail).unwrap();
    disk
}

#[test]
fn memory_disk_round_trips_sectors() {
    let mut disk = MemoryDisk::new(512, 4);
    let s = sector(&[(0, 0xAB), (511, 0xCD)]);
    disk.write_sector(2, &s).unwrap();
    let r = disk.read_sector(2).unwrap();
    assert_eq!(r[0], 0xAB);
    assert_eq!(r[511], 0xCD);
    assert_eq!(disk.read_sector(1).unwrap(), vec![0u8; 512]);
    assert!(disk.read_sector(4).is_err());
    assert!(disk.write_sector(4, &s).is_err());
    assert_eq!(disk.total_sectors(), 4);
    assert_eq!(disk.sector_size(), 512);
}

#[test]
fn boot_sector_fields_parse_at_their_offsets() {
    let disk = sample_volume();
    let bs = parse_boot_sector(&disk.read_sector(0).unwrap());
    assert_eq!(bs.bytes_per_sector, 512);
    assert_eq!(bs.sectors_per_cluster, 1);
    assert_eq!(bs.reserved_sector_count, 32);
    assert_eq!(bs.fat_count, 2);
    assert_eq!(bs.sectors_per_fat_32, 1);
    assert_eq!(bs.root_cluster, 2);
    assert_eq!(bs.total_sectors_16, 0);
}

#[test]
fn init_derives_the_volume_geometry() {
    let mut fs = FileSystem::new(sample_volume());
    fs.init().unwrap();
    assert_eq!(fs.bytes_per_sector, 512);
    assert_eq!(fs.sectors_per_cluster, 1);
    assert_eq!(fs.fat_start_sector, 32);
    assert_eq!(fs.data_start_sector, 34);
    assert_eq!(fs.root_dir_cluster, 2);
    assert_eq!(fs.cluster_to_sector(2), 34);
    assert_eq!(fs.cluster_to_sector(4), 36);
}

#[test]
fn fat_chain_walks_to_the_end_marker() {
    let mut fs = FileSystem::new(sample_volume());
    fs.init().unwrap();
    assert_eq!(fs.get_next_cluster(3), Ok(4));
    assert_eq!(fs.get_next_cluster(4), Ok(0));
    assert_eq!(fs.get_next_cluster(2), Ok(0));
    assert_eq!(fs.build_cluster_chain(3), Ok(vec![3, 4]));
    assert_eq!(fs.build_cluster_chain(2), Ok(vec![2]));
}

#[test]
fn directory_entry_flags_and_name() {
    let mut fs = FileSystem::new(sample_volume());
    fs.init().unwrap();
    let dir = fs.read_cluster(2).unwrap();
    let entry = parse_directory_entry(&dir, 0);
    assert!(!entry.is_free());
    assert!(!entry.is_directory());
    assert!(entry.is_file());
    assert_eq!(entry.get_name(), b"HELLO.TXT".to_vec());
    assert_eq!(entry.get_first_cluster(), 3);
    assert_eq!(entry.file_size, 600);
    // the second slot is free
    let empty = parse_directory_entry(&dir, 32);
    assert!(empty.is_free());
}

#[test]
fn find_by_path_ignores_ascii_case() {
    let mut fs = FileSystem::new(sample_volume());
    fs.init().unwrap();
    let found = fs.find_by_path("/hello.txt").unwrap().expect("file expected");
    assert_eq!(found.get_name(), b"HELLO.TXT".to_vec());
    assert_eq!(fs.find_by_path("/HELLO.TXT").unwrap().map(|e| e.file_size), Some(600));
    assert!(fs.find_by_path("/missing.txt").unwrap().is_none());
    assert!(fs.find_by_path("").is_err());
}

#[test]
fn open_read_and_close_a_file() {
    let mut fs = FileSystem::new(sample_volume());
    fs.init().unwrap();
    let mut handle = fs.open("/hello.txt").unwrap();
    assert_eq!(handle.size, 600);
    assert_eq!(handle.position, 0);
    // first cluster: 512 'A' bytes
    let first = fs.read(&mut handle, 1000).unwrap();
    assert_eq!(first.len(), 512);
    assert!(first.iter().all(|b| *b == b'A'));
    assert_eq!(handle.position, 512);
    // second cluster: the remaining 88 'B' bytes
    let second = fs.read(&mut handle, 1000).unwrap();
    assert_eq!(second.len(), 88);
    assert!(second.iter().all(|b| *b == b'B'));
    assert_eq!(handle.position, 600);
    // at end of file nothing more is read
    assert_eq!(fs.read(&mut handle, 1000).unwrap().len(), 0);
    fs.close(handle).unwrap();
    assert!(fs.close(handle).is_err());
}

#[test]
fn writes_are_not_supported() {
    let mut fs = FileSystem::new(sample_volume());
    fs.init().unwrap();
    let mut handle = fs.open("/hello.txt").unwrap();
    assert!(fs.write(&mut handle, &vec![1, 2, 3]).is_err());
}

#[test]
fn opening_a_missing_file_fails() {
    let mut fs = FileSystem::new(sample_volume());
    fs.init().unwrap();
    assert!(fs.open("/nope.txt").is_err());
    let mut bad = rust_kernel::fs::FileHandle { id: 99, position: 0, size: 10 };
    assert!(fs.read(&mut bad, 10).is_err());
}

#[test]
fn filesystem_trait_drives_the_driver() {
    let mut fs = FileSystem::new(sample_volume());
    FileSystemTrait::init(&mut fs).unwrap();
    let mut handle = FileSystemTrait::open(&mut fs, "/hello.txt").unwrap();
    let data = FileSystemTrait::read(&fs, &mut handle, 4).unwrap();
    assert_eq!(data, vec![b'A'; 4]);
    FileSystemTrait::close(&mut fs, handle).unwrap();
}

#[test]
fn init_rejects_unsupported_geometry() {
    let mut disk = MemoryDisk::new(512, 4);
    // sector size 1024 in the boot sector
    let boot = sector(&[(11, 0x00), (12, 0x04), (13, 1)]);
    disk.write_sector(0, &boot).unwrap();
    let mut fs = FileSystem::new(disk);
    assert!(fs.init().is_err());
}

#[test]
fn identify_block_prefers_the_48_bit_sector_count() {
    let mut buffer = vec![0u8; 512];
    // 28-bit count at words 60-61: 0x00030001
    buffer[120] = 0x01;
    buffer[122] = 0x03;
    assert_eq!(identify_sector_count(&buffer), 0x0003_0001);
    // once a 48-bit count at words 100-103 is set, it wins
    buffer[200] = 0x02;
    buffer[204] = 0x01;
    assert_eq!(identify_sector_count(&buffer), 0x0000_0001_0000_0002);
}
