//! A read-only FAT32 driver over a sector-level disk interface.
//!
//! The on-disk structures (boot sector, directory entries, the file
//! allocation table) are parsed from plain bytes with exact contracts;
//! the driver walks cluster chains through the FAT.

use vstd::prelude::*;
use crate::fs::FileHandle;

verus! {

/// Bytes per sector; FAT32 volumes this driver mounts use 512.
pub const BYTES_PER_SECTOR: usize = 512;

/// How many file allocation tables the volume keeps.
pub const NUM_FATS: u32 = 2;

/// Upper bound on the clusters walked in one chain, guarding against a
/// corrupted, cyclic FAT.
pub const MAX_CHAIN_CLUSTERS: usize = 1000000;

/// The little-endian 16-bit value at byte offset `off`.
pub open spec fn le16(s: Seq<u8>, off: int) -> int {
    s[off] + 0x100 * s[off + 1]
}

/// The little-endian 32-bit value at byte offset `off`.
pub open spec fn le32(s: Seq<u8>, off: int) -> int {
    s[off] + 0x100 * s[off + 1] + 0x1_0000 * s[off + 2] + 0x100_0000 * s[off + 3]
}

/// ASCII lower-case letters folded to upper case; all else unchanged.
pub open spec fn spec_ascii_upper(b: u8) -> u8 {
    if 97 <= b <= 122 {
        (b - 32) as u8
    } else {
        b
    }
}

/// A byte sequence folded to ASCII upper case.
pub open spec fn spec_upper_seq(s: Seq<u8>) -> Seq<u8> {
    s.map(|i: int, b: u8| spec_ascii_upper(b))
}

/// Fold one byte to ASCII upper case.
pub fn ascii_upper(b: u8) -> (r: u8)
    ensures
        r == spec_ascii_upper(b),
{
    if b >= 97 && b <= 122 {
        b - 32
    } else {
        b
    }
}

/// Sector count of a drive, decoded from its 512-byte identification
/// block: the 48-bit count at words 100-103 when set, else the 28-bit
/// count at words 60-61.
pub open spec fn spec_identify_sector_count(s: Seq<u8>) -> int {
    let lba48 = le16(s, 200) + 0x1_0000 * le16(s, 202) + 0x1_0000_0000 * le16(s, 204)
        + 0x1_0000_0000_0000 * le16(s, 206);
    let lba28 = le16(s, 120) + 0x1_0000 * le16(s, 122);
    if lba48 > 0 {
        lba48
    } else {
        lba28
    }
}

/// Decode a drive's sector count from its identification block.
pub fn identify_sector_count(buffer: &Vec<u8>) -> (r: u64)
    requires
        buffer@.len() == 512,
    ensures
        r == spec_identify_sector_count(buffer@),
{
    let lba48 = (read_le16(buffer, 200) as u64) + 0x1_0000 * (read_le16(buffer, 202) as u64)
        + 0x1_0000_0000 * (read_le16(buffer, 204) as u64) + 0x1_0000_0000_0000 * (read_le16(
        buffer, 206) as u64);
    let lba28 = (read_le16(buffer, 120) as u64) + 0x1_0000 * (read_le16(buffer, 122) as u64);
    if lba48 > 0 {
        lba48
    } else {
        lba28
    }
}

/// Reads and writes whole 512-byte sectors of a volume.
pub trait Disk: Sized {
    /// All bytes of the volume, in sector order.
    spec fn contents(&self) -> Seq<u8>;

    /// The volume holds whole sectors and its sector count fits `u32`.
    spec fn disk_wf(&self) -> bool;

    fn read_sector(&self, sector: u32) -> (r: Result<Vec<u8>, &'static str>)
        requires
            self.disk_wf(),
        ensures
            r is Ok == (512 * (sector as int + 1) <= self.contents().len()),
            r matches Ok(d) ==> d@ == self.contents().subrange(512 * sector as int, 512 * (
                sector as int + 1)),
    ;

    fn write_sector(&mut self, sector: u32, buffer: &Vec<u8>) -> (r: Result<(), &'static str>)
        requires
            old(self).disk_wf(),
            buffer@.len() == 512,
        ensures
            final(self).disk_wf(),
            r is Ok == (512 * (sector as int + 1) <= old(self).contents().len()),
            final(self).contents().len() == old(self).contents().len(),
            r is Ok ==> final(self).contents() == old(self).contents().map(
                |i: int, b: u8|
                    if 512 * sector as int <= i < 512 * (sector as int + 1) {
                        buffer@[i - 512 * sector as int]
                    } else {
                        b
                    },
            ),
            r is Err ==> final(self).contents() == old(self).contents(),
    ;

    fn total_sectors(&self) -> (r: u32)
        requires
            self.disk_wf(),
        ensures
            r == self.contents().len() / 512,
    ;

    /// Whether the volume satisfies the driver's well-formedness
    /// condition; lets callers test it before mounting.
    fn check_wf(&self) -> (r: bool)
        ensures
            r == self.disk_wf(),
    ;
}

/// A disk driver also reports its geometry.
pub trait DiskDriver: Disk {
    fn sector_size(&self) -> (r: usize)
        ensures
            r == 512,
    ;
}

/// A volume held in memory; used for testing the filesystem.
pub struct MemoryDisk {
    pub data: Vec<u8>,
    pub sector_size: usize,
}

impl MemoryDisk {
    /// A zero-filled volume of `total_sectors` sectors.
    pub fn new(sector_size: usize, total_sectors: usize) -> (r: Self)
        requires
            sector_size == 512,
            512 * total_sectors <= usize::MAX,
            total_sectors <= u32::MAX,
        ensures
            r.disk_wf(),
            r.contents().len() == 512 * total_sectors,
            forall|i: int| 0 <= i < r.contents().len() ==> r.contents()[i] == 0,
    {
        let size = sector_size * total_sectors;
        let mut data: Vec<u8> = Vec::new();
        let mut i: usize = 0;
        while i < size
            invariant
                0 <= i <= size,
                data@.len() == i,
                forall|j: int| 0 <= j < i ==> data@[j] == 0,
            decreases size - i,
        {
            data.push(0);
            i = i + 1;
        }
        MemoryDisk { data, sector_size }
    }
}

impl Disk for MemoryDisk {
    open spec fn contents(&self) -> Seq<u8> {
        self.data@
    }

    open spec fn disk_wf(&self) -> bool {
        &&& self.data@.len() % 512 == 0
        &&& self.data@.len() / 512 <= u32::MAX
    }

    fn read_sector(&self, sector: u32) -> (r: Result<Vec<u8>, &'static str>) {
        let start64 = (sector as u64) * 512;
        if start64 + 512 > self.data.len() as u64 {
            return Err("Sector read out of bounds");
        }
        let start = start64 as usize;
        proof {
            assert(start + 512 <= self.data@.len());
        }
        let mut buffer: Vec<u8> = Vec::new();
        let mut i: usize = 0;
        while i < BYTES_PER_SECTOR
            invariant
                0 <= i <= 512,
                start + 512 <= self.data@.len(),
                self.data@.len() <= usize::MAX,
                buffer@.len() == i,
                forall|j: int| 0 <= j < i ==> buffer@[j] == self.data@[start + j],
            decreases 512 - i,
        {
            buffer.push(self.data[start + i]);
            i = i + 1;
        }
        proof {
            assert(buffer@ =~= self.contents().subrange(512 * sector as int, 512 * (
                sector as int + 1)));
        }
        Ok(buffer)
    }

    fn write_sector(&mut self, sector: u32, buffer: &Vec<u8>) -> (r: Result<(), &'static str>) {
        let start64 = (sector as u64) * 512;
        if start64 + 512 > self.data.len() as u64 {
            return Err("Sector write out of bounds");
        }
        let start = start64 as usize;
        proof {
            assert(start + 512 <= self.data@.len());
        }
        let mut i: usize = 0;
        while i < BYTES_PER_SECTOR
            invariant
                0 <= i <= 512,
                start + 512 <= self.data@.len(),
                self.data@.len() <= usize::MAX,
                buffer@.len() == 512,
                self.data@.len() == old(self).data@.len(),
                self.sector_size == old(self).sector_size,
                forall|j: int|
                    0 <= j < self.data@.len() && !(start <= j < start + i) ==> self.data@[j]
                        == old(self).data@[j],
                forall|j: int| 0 <= j < i ==> self.data@[start + j] == buffer@[j],
            decreases 512 - i,
        {
            self.data[start + i] = buffer[i];
            i = i + 1;
        }
        proof {
            assert(self.contents() =~= old(self).contents().map(
                |i: int, b: u8|
                    if 512 * sector as int <= i < 512 * (sector as int + 1) {
                        buffer@[i - 512 * sector as int]
                    } else {
                        b
                    },
            ));
        }
        Ok(())
    }

    fn total_sectors(&self) -> (r: u32) {
        proof {
            assert(self.data@.len() <= 512 * (u32::MAX as int)) by (nonlinear_arith)
                requires
                    self.data@.len() % 512 == 0,
                    self.data@.len() / 512 <= u32::MAX as int,
            ;
        }
        (self.data.len() / BYTES_PER_SECTOR) as u32
    }

    fn check_wf(&self) -> (r: bool) {
        self.data.len() % 512 == 0 && self.data.len() / 512 <= u32::MAX as usize
    }
}

impl DiskDriver for MemoryDisk {
    fn sector_size(&self) -> (r: usize) {
        512
    }
}

/// The BIOS parameter block of a FAT32 volume, parsed from sector 0.
#[derive(Clone, Copy, Debug, PartialEq, Eq, Structural)]
pub struct FatBootSector {
    pub bytes_per_sector: u16,
    pub sectors_per_cluster: u8,
    pub reserved_sector_count: u16,
    pub fat_count: u8,
    pub root_entry_count: u16,
    pub total_sectors_16: u16,
    pub media_type: u8,
    pub sectors_per_fat_16: u16,
    pub sectors_per_track: u16,
    pub head_count: u16,
    pub hidden_sectors: u32,
    pub total_sectors_32: u32,
    pub sectors_per_fat_32: u32,
    pub ext_flags: u16,
    pub fs_version: u16,
    pub root_cluster: u32,
    pub fs_info: u16,
    pub backup_boot_sector: u16,
    pub drive_number: u8,
    pub boot_signature: u8,
    pub volume_id: u32,
}

/// Little-endian 16-bit read from a sector buffer.
fn read_le16(buffer: &Vec<u8>, off: usize) -> (r: u16)
    requires
        off + 2 <= buffer@.len(),
    ensures
        r == le16(buffer@, off as int),
{
    let n = buffer.len();
    proof {
        assert(off + 2 <= n);
    }
    (buffer[off] as u16) + 0x100 * (buffer[off + 1] as u16)
}

/// Little-endian 32-bit read from a sector buffer.
fn read_le32(buffer: &Vec<u8>, off: usize) -> (r: u32)
    requires
        off + 4 <= buffer@.len(),
    ensures
        r == le32(buffer@, off as int),
{
    let n = buffer.len();
    proof {
        assert(off + 4 <= n);
    }
    (buffer[off] as u32) + 0x100 * (buffer[off + 1] as u32) + 0x1_0000 * (buffer[off
        + 2] as u32) + 0x100_0000 * (buffer[off + 3] as u32)
}

/// The boot sector fields at their on-disk offsets.
pub open spec fn spec_boot_sector(s: Seq<u8>) -> FatBootSector {
    FatBootSector {
        bytes_per_sector: le16(s, 11) as u16,
        sectors_per_cluster: s[13],
        reserved_sector_count: le16(s, 14) as u16,
        fat_count: s[16],
        root_entry_count: le16(s, 17) as u16,
        total_sectors_16: le16(s, 19) as u16,
        media_type: s[21],
        sectors_per_fat_16: le16(s, 22) as u16,
        sectors_per_track: le16(s, 24) as u16,
        head_count: le16(s, 26) as u16,
        hidden_sectors: le32(s, 28) as u32,
        total_sectors_32: le32(s, 32) as u32,
        sectors_per_fat_32: le32(s, 36) as u32,
        ext_flags: le16(s, 40) as u16,
        fs_version: le16(s, 42) as u16,
        root_cluster: le32(s, 44) as u32,
        fs_info: le16(s, 48) as u16,
        backup_boot_sector: le16(s, 50) as u16,
        drive_number: s[64],
        boot_signature: s[66],
        volume_id: le32(s, 67) as u32,
    }
}

/// Decode the boot sector from the 512 bytes of sector 0.
pub fn parse_boot_sector(buffer: &Vec<u8>) -> (r: FatBootSector)
    requires
        buffer@.len() == 512,
    ensures
        r == spec_boot_sector(buffer@),
{
    FatBootSector {
        bytes_per_sector: read_le16(buffer, 11),
        sectors_per_cluster: buffer[13],
        reserved_sector_count: read_le16(buffer, 14),
        fat_count: buffer[16],
        root_entry_count: read_le16(buffer, 17),
        total_sectors_16: read_le16(buffer, 19),
        media_type: buffer[21],
        sectors_per_fat_16: read_le16(buffer, 22),
        sectors_per_track: read_le16(buffer, 24),
        head_count: read_le16(buffer, 26),
        hidden_sectors: read_le32(buffer, 28),
        total_sectors_32: read_le32(buffer, 32),
        sectors_per_fat_32: read_le32(buffer, 36),
        ext_flags: read_le16(buffer, 40),
        fs_version: read_le16(buffer, 42),
        root_cluster: read_le32(buffer, 44),
        fs_info: read_le16(buffer, 48),
        backup_boot_sector: read_le16(buffer, 50),
        drive_number: buffer[64],
        boot_signature: buffer[66],
        volume_id: read_le32(buffer, 67),
    }
}

/// One 32-byte FAT directory entry.
#[derive(Clone, Debug)]
pub struct DirectoryEntry {
    pub name: Vec<u8>,
    pub ext: Vec<u8>,
    pub attributes: u8,
    pub reserved: u8,
    pub creation_time_tenths: u8,
    pub creation_time: u16,
    pub creation_date: u16,
    pub last_access_date: u16,
    pub first_cluster_high: u16,
    pub last_modification_time: u16,
    pub last_modification_date: u16,
    pub first_cluster_low: u16,
    pub file_size: u32,
}

/// Length of the name or extension up to its first padding space.
pub open spec fn trimmed_len(s: Seq<u8>, i: int) -> int
    decreases s.len() - i,
{
    if i < 0 || i >= s.len() {
        s.len() as int
    } else if s[i] == 32 {
        i
    } else {
        trimmed_len(s, i + 1)
    }
}

/// The display name of an entry: base name, and `.` plus the extension
/// when one is present.
pub open spec fn spec_entry_name(name: Seq<u8>, ext: Seq<u8>) -> Seq<u8> {
    let base = name.take(trimmed_len(name, 0));
    if ext.len() > 0 && ext[0] != 32 {
        base + seq![46u8] + ext.take(trimmed_len(ext, 0))
    } else {
        base
    }
}

impl DirectoryEntry {
    /// An entry carries an 8-byte base name and a 3-byte extension.
    pub open spec fn wf(&self) -> bool {
        self.name@.len() == 8 && self.ext@.len() == 3
    }

    pub open spec fn spec_is_free(&self) -> bool {
        self.name@[0] == 0xE5 || self.name@[0] == 0
    }

    /// Whether the slot is unused or deleted.
    pub fn is_free(&self) -> (r: bool)
        requires
            self.wf(),
        ensures
            r == self.spec_is_free(),
    {
        self.name[0] == 0xE5 || self.name[0] == 0x00
    }

    /// Whether the directory attribute bit is set.
    pub fn is_directory(&self) -> (r: bool)
        ensures
            r == (self.attributes & 0x10 != 0),
    {
        (self.attributes & 0x10) != 0
    }

    /// Whether the entry is a regular file: neither a directory nor a
    /// volume label.
    pub fn is_file(&self) -> (r: bool)
        ensures
            r == (self.attributes & 0x10 == 0 && self.attributes & 0x08 == 0),
    {
        (self.attributes & 0x10) == 0 && (self.attributes & 0x08) == 0
    }

    /// The display name: space padding trimmed, extension appended
    /// after a dot when present.
    pub fn get_name(&self) -> (r: Vec<u8>)
        requires
            self.wf(),
        ensures
            r@ == spec_entry_name(self.name@, self.ext@),
    {
        let mut name: Vec<u8> = Vec::new();
        let mut i: usize = 0;
        let mut done = false;
        while i < 8 && !done
            invariant
                self.wf(),
                0 <= i <= 8,
                forall|j: int| 0 <= j < i ==> self.name@[j] != 32,
                name@ == self.name@.take(i as int),
                done ==> i < 8 && self.name@[i as int] == 32,
            decreases 8 - i, (if done { 0int } else { 1int }),
        {
            if self.name[i] == 32 {
                done = true;
            } else {
                name.push(self.name[i]);
                proof {
                    assert(name@ =~= self.name@.take(i as int + 1));
                }
                i = i + 1;
            }
        }
        proof {
            lemma_trimmed_at(self.name@, i as int);
            assert(name@ == self.name@.take(trimmed_len(self.name@, 0)));
        }
        if self.ext[0] != 32 {
            name.push(46);
            let mut k: usize = 0;
            let mut ext_done = false;
            let ghost base_dot = name@;
            while k < 3 && !ext_done
                invariant
                    self.wf(),
                    0 <= k <= 3,
                    forall|j: int| 0 <= j < k ==> self.ext@[j] != 32,
                    name@ == base_dot + self.ext@.take(k as int),
                    ext_done ==> k < 3 && self.ext@[k as int] == 32,
                decreases 3 - k, (if ext_done { 0int } else { 1int }),
            {
                if self.ext[k] == 32 {
                    ext_done = true;
                } else {
                    name.push(self.ext[k]);
                    proof {
                        assert(name@ =~= base_dot + self.ext@.take(k as int + 1));
                    }
                    k = k + 1;
                }
            }
            proof {
                lemma_trimmed_at(self.ext@, k as int);
                assert(name@ =~= spec_entry_name(self.name@, self.ext@));
            }
        } else {
            proof {
                assert(self.ext@.take(0) =~= Seq::<u8>::empty());
            }
        }
        name
    }

    /// The entry's first data cluster, from its split 16-bit halves.
    pub fn get_first_cluster(&self) -> (r: u32)
        ensures
            r == self.first_cluster_high * 0x1_0000 + self.first_cluster_low,
    {
        (self.first_cluster_high as u32) * 0x1_0000 + (self.first_cluster_low as u32)
    }
}

/// A prefix free of padding ends the trimmed name at position `i`.
proof fn lemma_trimmed_at(s: Seq<u8>, i: int)
    requires
        0 <= i <= s.len(),
        forall|j: int| 0 <= j < i ==> s[j] != 32,
        i < s.len() ==> s[i] == 32,
    ensures
        trimmed_len(s, 0) == i,
{
    lemma_trimmed_from(s, 0, i);
}

proof fn lemma_trimmed_from(s: Seq<u8>, k: int, i: int)
    requires
        0 <= k <= i <= s.len(),
        forall|j: int| k <= j < i ==> s[j] != 32,
        i < s.len() ==> s[i] == 32,
    ensures
        trimmed_len(s, k) == i,
    decreases i - k,
{
    if k < i {
        lemma_trimmed_from(s, k + 1, i);
    }
}

/// Whether `e` is exactly the directory entry recorded in the 32
/// bytes at offset `off` of `s`.
pub open spec fn is_entry_at(s: Seq<u8>, off: int, e: DirectoryEntry) -> bool {
    &&& e.name@ == s.subrange(off, off + 8)
    &&& e.ext@ == s.subrange(off + 8, off + 11)
    &&& e.attributes == s[off + 11]
    &&& e.reserved == s[off + 12]
    &&& e.creation_time_tenths == s[off + 13]
    &&& e.creation_time == le16(s, off + 14)
    &&& e.creation_date == le16(s, off + 16)
    &&& e.last_access_date == le16(s, off + 18)
    &&& e.first_cluster_high == le16(s, off + 20)
    &&& e.last_modification_time == le16(s, off + 22)
    &&& e.last_modification_date == le16(s, off + 24)
    &&& e.first_cluster_low == le16(s, off + 26)
    &&& e.file_size == le32(s, off + 28)
}

/// Whether `e` is the `k`-th directory entry slot of data cluster `c`
/// on a volume with the given geometry.
pub open spec fn entry_on_volume(contents: Seq<u8>, data_start: u32, spc: u32, c: int, k: int,
    e: DirectoryEntry) -> bool {
    let first = data_start + (c - 2) * spc;
    &&& 2 <= c < 0x0FFF_FFF8
    &&& 0 <= k
    &&& 32 * (k + 1) <= 512 * spc
    &&& is_entry_at(contents, 512 * first + 32 * k, e)
}

/// Decode one 32-byte directory entry from a cluster buffer.
pub fn parse_directory_entry(buffer: &Vec<u8>, off: usize) -> (r: DirectoryEntry)
    requires
        off + 32 <= buffer@.len(),
    ensures
        r.wf(),
        is_entry_at(buffer@, off as int, r),
{
    let n = buffer.len();
    let mut name: Vec<u8> = Vec::new();
    let mut i: usize = 0;
    while i < 8
        invariant
            off + 32 <= n <= usize::MAX,
            n == buffer@.len(),
            0 <= i <= 8,
            name@.len() == i,
            forall|j: int| 0 <= j < i ==> name@[j] == buffer@[off + j],
        decreases 8 - i,
    {
        name.push(buffer[off + i]);
        i = i + 1;
    }
    let mut ext: Vec<u8> = Vec::new();
    let mut k: usize = 0;
    while k < 3
        invariant
            off + 32 <= n <= usize::MAX,
            n == buffer@.len(),
            0 <= k <= 3,
            ext@.len() == k,
            forall|j: int| 0 <= j < k ==> ext@[j] == buffer@[off + 8 + j],
        decreases 3 - k,
    {
        ext.push(buffer[off + 8 + k]);
        k = k + 1;
    }
    proof {
        assert(name@ =~= buffer@.subrange(off as int, off + 8));
        assert(ext@ =~= buffer@.subrange(off + 8, off + 11));
    }
    DirectoryEntry {
        name,
        ext,
        attributes: buffer[off + 11],
        reserved: buffer[off + 12],
        creation_time_tenths: buffer[off + 13],
        creation_time: read_le16(buffer, off + 14),
        creation_date: read_le16(buffer, off + 16),
        last_access_date: read_le16(buffer, off + 18),
        first_cluster_high: read_le16(buffer, off + 20),
        last_modification_time: read_le16(buffer, off + 22),
        last_modification_date: read_le16(buffer, off + 24),
        first_cluster_low: read_le16(buffer, off + 26),
        file_size: read_le32(buffer, off + 28),
    }
}

/// Whether two byte strings are equal once folded to ASCII upper case.
pub fn eq_ignore_ascii_case(a: &Vec<u8>, b: &[u8]) -> (r: bool)
    ensures
        r == (spec_upper_seq(a@) == spec_upper_seq(b@)),
{
    if a.len() != b.len() {
        proof {
            assert(spec_upper_seq(a@).len() != spec_upper_seq(b@).len());
        }
        return false;
    }
    let n = a.len();
    let mut i: usize = 0;
    while i < n
        invariant
            n == a@.len() == b@.len(),
            0 <= i <= n,
            forall|j: int|
                0 <= j < i ==> spec_ascii_upper(a@[j]) == spec_ascii_upper(b@[j]),
        decreases n - i,
    {
        if ascii_upper(a[i]) != ascii_upper(b[i]) {
            proof {
                assert(spec_upper_seq(a@)[i as int] != spec_upper_seq(b@)[i as int]);
            }
            return false;
        }
        i = i + 1;
    }
    proof {
        assert(spec_upper_seq(a@) =~= spec_upper_seq(b@));
    }
    true
}

/// The raw FAT entry of `cluster`: four little-endian bytes inside the
/// first file allocation table.
pub open spec fn spec_fat_entry(contents: Seq<u8>, fat_start: u32, cluster: u32) -> int {
    le32(contents, 512 * fat_start + 4 * cluster)
}

/// The successor of `cluster` in its chain: the FAT entry with the top
/// four bits masked off, and 0 for an end-of-chain marker.
pub open spec fn spec_next_cluster(contents: Seq<u8>, fat_start: u32, cluster: u32) -> int {
    let masked = spec_fat_entry(contents, fat_start, cluster) % 0x1000_0000;
    if masked >= 0x0FFF_FFF8 {
        0
    } else {
        masked
    }
}

/// A cluster chain as the FAT records it: it starts at `start_cluster`
/// (unless that is already an end marker), stays within the valid
/// cluster numbers, and each link is the FAT successor of the one
/// before it.
pub open spec fn chain_follows_fat(contents: Seq<u8>, fat_start: u32, start_cluster: u32,
    chain: Seq<u32>) -> bool {
    &&& chain.len() <= MAX_CHAIN_CLUSTERS
    &&& chain.len() > 0 ==> chain[0] == start_cluster
    &&& forall|k: int| 0 <= k < chain.len() ==> 0 < (#[trigger] chain[k]) < 0x0FFF_FFF8
    &&& forall|k: int|
        0 <= k < chain.len() - 1 ==> chain[k + 1] == spec_next_cluster(contents, fat_start,
            chain[k])
}

/// A freshly opened file is backed by the volume: some non-directory
/// entry on the volume has the handle's size, and the stored chain
/// follows the FAT from that entry's first cluster.
pub open spec fn opened_file_ok(contents: Seq<u8>, data_start: u32, spc: u32, fat_start: u32,
    h: FileHandle, chain: Seq<u32>) -> bool {
    exists|c: int, k: int, e: DirectoryEntry|
        {
            &&& #[trigger] entry_on_volume(contents, data_start, spc, c, k, e)
            &&& e.attributes & 0x10 == 0
            &&& h.size == e.file_size
            &&& chain_follows_fat(contents, fat_start, (e.first_cluster_high * 0x1_0000
                + e.first_cluster_low) as u32, chain)
        }
}

/// Whether slot `j` of data cluster `c` holds a live entry whose
/// display name equals `name` up to ASCII case.
pub open spec fn slot_matches(contents: Seq<u8>, data_start: u32, spc: u32, c: u32, j: int,
    name: Seq<u8>) -> bool {
    let first = data_start + (c - 2) * spc;
    let off = 512 * first + 32 * j;
    &&& !(contents[off] == 0xE5 || contents[off] == 0)
    &&& spec_upper_seq(spec_entry_name(contents.subrange(off, off + 8), contents.subrange(
        off + 8, off + 11))) == spec_upper_seq(name)
}

/// The clusters reachable from `cluster` by following the FAT, at most
/// `fuel` of them.
pub open spec fn spec_chain(contents: Seq<u8>, fat_start: u32, cluster: u32, fuel: int)
    -> Seq<u32>
    decreases fuel,
{
    if fuel <= 0 || cluster == 0 || cluster >= 0x0FFF_FFF8 {
        Seq::empty()
    } else {
        seq![cluster] + spec_chain(contents, fat_start, spec_next_cluster(contents,
            fat_start, cluster) as u32, fuel - 1)
    }
}

proof fn lemma_spec_chain_len(contents: Seq<u8>, fat_start: u32, cluster: u32, fuel: int)
    ensures
        spec_chain(contents, fat_start, cluster, fuel).len() <= fuel || fuel < 0,
    decreases fuel,
{
    if !(fuel <= 0 || cluster == 0 || cluster >= 0x0FFF_FFF8) {
        lemma_spec_chain_len(contents, fat_start, spec_next_cluster(contents, fat_start,
            cluster) as u32, fuel - 1);
    }
}

/// The first open-files position holding the handle with this id.
pub open spec fn handle_index_of(files: Seq<(FileHandle, Vec<u32>)>, id: usize) -> Option<int>
    decreases files.len(),
{
    if files.len() == 0 {
        None
    } else if files[0].0.id == id {
        Some(0int)
    } else {
        match handle_index_of(files.drop_first(), id) {
            Some(i) => Some(i + 1),
            None => None,
        }
    }
}

proof fn lemma_handle_index_of_prefix(files: Seq<(FileHandle, Vec<u32>)>, id: usize, i: int)
    requires
        0 <= i <= files.len(),
        forall|j: int| 0 <= j < i ==> (#[trigger] files[j]).0.id != id,
    ensures
        handle_index_of(files, id) == match handle_index_of(files.skip(i), id) {
            Some(k) => Some(k + i),
            None => None::<int>,
        },
    decreases i,
{
    if i == 0 {
        assert(files.skip(0) =~= files);
    } else {
        let rest = files.drop_first();
        assert forall|j: int| 0 <= j < i - 1 implies (#[trigger] rest[j]).0.id != id by {
            assert(rest[j] == files[j + 1]);
        }
        lemma_handle_index_of_prefix(rest, id, i - 1);
        assert(rest.skip(i - 1) =~= files.skip(i));
    }
}

/// A mounted FAT32 volume: the geometry read from the boot sector plus
/// the table of open files.
pub struct FileSystem<D: Disk> {
    pub disk: D,
    pub fat_start_sector: u32,
    pub data_start_sector: u32,
    pub root_dir_cluster: u32,
    pub sectors_per_cluster: u32,
    pub bytes_per_sector: u32,
    pub next_file_handle_id: usize,
    pub open_files: Vec<(FileHandle, Vec<u32>)>,
}

impl<D: Disk> FileSystem<D> {
    /// A mounted, supported geometry: 512-byte sectors and a sane
    /// cluster size.
    pub open spec fn fs_wf(&self) -> bool {
        &&& self.disk.disk_wf()
        &&& self.bytes_per_sector == 512
        &&& 1 <= self.sectors_per_cluster <= 128
        &&& self.next_file_handle_id >= 1
    }

    /// Wrap a disk; the geometry is filled in by `init`.
    pub fn new(disk: D) -> (r: Self)
        ensures
            r.disk == disk,
            r.fat_start_sector == 0,
            r.data_start_sector == 0,
            r.root_dir_cluster == 0,
            r.sectors_per_cluster == 0,
            r.bytes_per_sector == 0,
            r.next_file_handle_id == 1,
            r.open_files@.len() == 0,
    {
        FileSystem {
            disk,
            fat_start_sector: 0,
            data_start_sector: 0,
            root_dir_cluster: 0,
            sectors_per_cluster: 0,
            bytes_per_sector: 0,
            next_file_handle_id: 1,
            open_files: Vec::new(),
        }
    }

    /// Read and decode the volume's boot sector.
    pub fn read_boot_sector(&self) -> (r: Result<FatBootSector, &'static str>)
        requires
            self.disk.disk_wf(),
        ensures
            r is Ok == (512 <= self.disk.contents().len()),
            r matches Ok(bs) ==> bs == spec_boot_sector(self.disk.contents().subrange(0, 512)),
    {
        let buffer = match self.disk.read_sector(0) {
            Ok(b) => b,
            Err(_) => {
                return Err("Failed to read boot sector");
            },
        };
        Ok(parse_boot_sector(&buffer))
    }

    /// First sector of a data cluster; clusters are numbered from 2.
    pub fn cluster_to_sector(&self, cluster: u32) -> (r: u32)
        requires
            self.fs_wf(),
            cluster >= 2,
            self.data_start_sector + (cluster - 2) * self.sectors_per_cluster <= u32::MAX,
        ensures
            r == self.data_start_sector + (cluster - 2) * self.sectors_per_cluster,
    {
        let data_cluster = cluster - 2;
        self.data_start_sector + data_cluster * self.sectors_per_cluster
    }

    /// Follow the FAT one step: the next cluster of the chain, or 0 at
    /// the end of the chain.
    pub fn get_next_cluster(&self, cluster: u32) -> (r: Result<u32, &'static str>)
        requires
            self.fs_wf(),
            cluster < 0x1000_0000,
            self.fat_start_sector + 0x20_0000 <= u32::MAX,
        ensures
            r is Ok == (512 * (self.fat_start_sector + 4 * cluster as int / 512 + 1)
                <= self.disk.contents().len()),
            r matches Ok(next) ==> next == spec_next_cluster(self.disk.contents(),
                self.fat_start_sector, cluster),
    {
        let fat_offset = cluster * 4;
        proof {
            assert(fat_offset as int / 512 < 0x20_0000) by (nonlinear_arith)
                requires fat_offset < 0x4000_0000;
        }
        let fat_sector = self.fat_start_sector + fat_offset / 512;
        let entry_offset = (fat_offset % 512) as usize;
        let buffer = match self.disk.read_sector(fat_sector) {
            Ok(b) => b,
            Err(_) => {
                return Err("Failed to read FAT sector");
            },
        };
        proof {
            vstd::arithmetic::div_mod::lemma_fundamental_div_mod(4 * cluster as int, 512);
            assert((4 * cluster as int) % 512 + 4 <= 512) by (nonlinear_arith)
                requires true,
            {
                let m = (4 * cluster as int) % 512;
                vstd::arithmetic::div_mod::lemma_mod_bound(4 * cluster as int, 512);
                assert(m == 4 * (cluster as int % 128)) by (nonlinear_arith)
                    requires m == (4 * cluster as int) % 512;
                assert(m + 4 <= 512) by (nonlinear_arith)
                    requires m == 4 * (cluster as int % 128);
            }
        }
        let raw = read_le32(&buffer, entry_offset);
        let next_cluster = raw & 0x0FFF_FFFF;
        proof {
            assert(raw & 0x0FFF_FFFFu32 == raw % 0x1000_0000u32) by (bit_vector);
            assert(le32(self.disk.contents(), 512 * self.fat_start_sector + 4 * cluster)
                == le32(buffer@, entry_offset as int));
        }
        if next_cluster >= 0x0FFF_FFF8 {
            return Ok(0);
        }
        Ok(next_cluster)
    }

    /// Read one whole data cluster.
    pub fn read_cluster(&self, cluster: u32) -> (r: Result<Vec<u8>, &'static str>)
        requires
            self.fs_wf(),
            cluster >= 2,
            self.data_start_sector + (cluster - 2) * self.sectors_per_cluster
                + self.sectors_per_cluster <= u32::MAX,
        ensures
            ({
                let first = self.data_start_sector + (cluster - 2) * self.sectors_per_cluster;
                &&& r is Ok == (512 * (first + self.sectors_per_cluster)
                    <= self.disk.contents().len())
                &&& r matches Ok(d) ==> d@ == self.disk.contents().subrange(512 * first, 512
                    * (first + self.sectors_per_cluster))
            }),
    {
        let start_sector = self.cluster_to_sector(cluster);
        let ghost first = start_sector as int;
        let mut data: Vec<u8> = Vec::new();
        let mut i: u32 = 0;
        while i < self.sectors_per_cluster
            invariant
                self.fs_wf(),
                first == self.data_start_sector + (cluster as int - 2)
                    * self.sectors_per_cluster,
                start_sector == first,
                start_sector + self.sectors_per_cluster <= u32::MAX,
                0 <= i <= self.sectors_per_cluster,
                i == 0 ==> data@.len() == 0,
                i > 0 ==> 512 * (first + i) <= self.disk.contents().len() && data@
                    == self.disk.contents().subrange(512 * first, 512 * (first + i)),
            decreases self.sectors_per_cluster - i,
        {
            let mut sector_data = match self.disk.read_sector(start_sector + i) {
                Ok(d) => d,
                Err(_) => {
                    return Err("Failed to read cluster sector");
                },
            };
            data.append(&mut sector_data);
            proof {
                assert(data@ =~= self.disk.contents().subrange(512 * first, 512 * (first + i
                    + 1)));
            }
            i = i + 1;
        }
        Ok(data)
    }

    /// Search one directory's cluster chain for an entry whose display
    /// name matches `name`, ignoring ASCII case.
    pub fn find_in_directory(&self, dir_cluster: u32, name: &[u8]) -> (r: Result<
        Option<DirectoryEntry>, &'static str>)
        requires
            self.fs_wf(),
            self.fat_start_sector + 0x20_0000 <= u32::MAX,
        ensures
            r matches Ok(Some(e)) ==> e.wf() && !e.spec_is_free() && spec_upper_seq(
                spec_entry_name(e.name@, e.ext@)) == spec_upper_seq(name@) && exists|
                c: int, k: int| entry_on_volume(self.disk.contents(),
                self.data_start_sector, self.sectors_per_cluster, c, k, e),
            r == Ok::<Option<DirectoryEntry>, &'static str>(None) ==> ({
                let chain = spec_chain(self.disk.contents(), self.fat_start_sector,
                    dir_cluster, MAX_CHAIN_CLUSTERS as int);
                forall|i: int, j: int|
                    0 <= i < chain.len() && 0 <= j < 16 * self.sectors_per_cluster
                        ==> !#[trigger] slot_matches(self.disk.contents(),
                        self.data_start_sector, self.sectors_per_cluster, chain[i], j,
                        name@)
            }),
    {
        let ghost contents = self.disk.contents();
        let ghost chain0 = spec_chain(contents, self.fat_start_sector, dir_cluster,
            MAX_CHAIN_CLUSTERS as int);
        proof {
            lemma_spec_chain_len(contents, self.fat_start_sector, dir_cluster,
                MAX_CHAIN_CLUSTERS as int);
            assert(chain0.skip(0) =~= chain0);
        }
        let mut current_cluster = dir_cluster;
        let mut guard: usize = 0;
        while current_cluster != 0 && guard < MAX_CHAIN_CLUSTERS
            invariant
                self.fs_wf(),
                self.fat_start_sector + 0x20_0000 <= u32::MAX,
                0 <= guard <= MAX_CHAIN_CLUSTERS,
                contents == self.disk.contents(),
                chain0 == spec_chain(contents, self.fat_start_sector, dir_cluster,
                    MAX_CHAIN_CLUSTERS as int),
                chain0.len() <= MAX_CHAIN_CLUSTERS,
                guard <= chain0.len(),
                spec_chain(contents, self.fat_start_sector, current_cluster,
                    MAX_CHAIN_CLUSTERS - guard) == chain0.skip(guard as int),
                forall|i: int, j: int|
                    0 <= i < guard && i < chain0.len() && 0 <= j < 16
                        * self.sectors_per_cluster ==> !#[trigger] slot_matches(contents,
                        self.data_start_sector, self.sectors_per_cluster, chain0[i], j,
                        name@),
            decreases MAX_CHAIN_CLUSTERS - guard,
        {
            if current_cluster < 2 || current_cluster >= 0x0FFF_FFF8 {
                return Err("Invalid cluster in directory chain");
            }
            proof {
                assert((current_cluster as int - 2) * self.sectors_per_cluster as int
                    <= 0x0FFF_FFF8 * 128) by (nonlinear_arith)
                    requires
                        2 <= current_cluster as int <= 0x0FFF_FFF8,
                        0 <= self.sectors_per_cluster as int <= 128,
                ;
            }
            if self.data_start_sector as u64 + (current_cluster as u64 - 2)
                * self.sectors_per_cluster as u64 + self.sectors_per_cluster as u64
                > u32::MAX as u64 {
                return Err("Cluster out of range");
            }
            let buffer = match self.read_cluster(current_cluster) {
                Ok(b) => b,
                Err(e) => {
                    return Err(e);
                },
            };
            let ghost first = self.data_start_sector + (current_cluster as int - 2)
                * self.sectors_per_cluster;
            let cluster_size = buffer.len();
            let entries_per_cluster = cluster_size / 32;
            proof {
                assert(buffer@.len() == 512 * self.sectors_per_cluster);
                assert(512 * self.sectors_per_cluster as int / 32 == 16
                    * self.sectors_per_cluster as int) by (nonlinear_arith);
            }
            let mut k: usize = 0;
            while k < entries_per_cluster
                invariant
                    self.fs_wf(),
                    contents == self.disk.contents(),
                    0 <= k <= entries_per_cluster,
                    entries_per_cluster == 16 * self.sectors_per_cluster,
                    entries_per_cluster == buffer@.len() as int / 32,
                    cluster_size == buffer@.len(),
                    2 <= current_cluster < 0x0FFF_FFF8,
                    first == self.data_start_sector + (current_cluster as int - 2)
                        * self.sectors_per_cluster,
                    512 * (first + self.sectors_per_cluster)
                        <= self.disk.contents().len(),
                    buffer@ == self.disk.contents().subrange(512 * first, 512 * (first
                        + self.sectors_per_cluster)),
                    forall|j: int|
                        0 <= j < k ==> !#[trigger] slot_matches(contents,
                            self.data_start_sector, self.sectors_per_cluster,
                            current_cluster, j, name@),
                decreases entries_per_cluster - k,
            {
                proof {
                    vstd::arithmetic::div_mod::lemma_fundamental_div_mod(
                        buffer@.len() as int, 32);
                    assert(32 * (k + 1) <= 32 * (buffer@.len() as int / 32))
                        by (nonlinear_arith)
                        requires k + 1 <= buffer@.len() as int / 32;
                }
                let entry = parse_directory_entry(&buffer, k * 32);
                let ghost off = 512 * first + 32 * k;
                proof {
                    assert(entry.name@ =~= contents.subrange(off, off + 8));
                    assert(entry.ext@ =~= contents.subrange(off + 8, off + 11));
                }
                if !entry.is_free() {
                    let entry_name = entry.get_name();
                    if eq_ignore_ascii_case(&entry_name, name) {
                        proof {
                            let c = current_cluster as int;
                            let first = self.data_start_sector + (c - 2)
                                * self.sectors_per_cluster;
                            let off = 512 * first + 32 * k;
                            assert(entry.name@ =~= self.disk.contents().subrange(off, off
                                + 8));
                            assert(entry.ext@ =~= self.disk.contents().subrange(off + 8, off
                                + 11));
                            assert(is_entry_at(self.disk.contents(), off, entry));
                            assert(entry_on_volume(self.disk.contents(),
                                self.data_start_sector, self.sectors_per_cluster, c,
                                k as int, entry));
                            assert(exists|c2: int, k2: int| entry_on_volume(
                                self.disk.contents(), self.data_start_sector,
                                self.sectors_per_cluster, c2, k2, entry));
                        }
                        return Ok(Some(entry));
                    }
                    proof {
                        // a live entry with a different folded name
                        assert(entry_name@ == spec_entry_name(contents.subrange(off, off
                            + 8), contents.subrange(off + 8, off + 11)));
                        assert(!slot_matches(contents, self.data_start_sector,
                            self.sectors_per_cluster, current_cluster, k as int, name@));
                    }
                } else {
                    proof {
                        // a free slot: its first name byte is a free marker
                        assert(contents[off] == entry.name@[0]);
                        assert(!slot_matches(contents, self.data_start_sector,
                            self.sectors_per_cluster, current_cluster, k as int, name@));
                    }
                }
                k = k + 1;
            }
            let ghost prev_cluster = current_cluster;
            current_cluster = match self.get_next_cluster(current_cluster) {
                Ok(c) => c,
                Err(e) => {
                    return Err(e);
                },
            };
            proof {
                // step one link down the chain
                assert(spec_chain(contents, self.fat_start_sector, prev_cluster,
                    MAX_CHAIN_CLUSTERS - guard).len() > 0);
                assert(chain0.skip(guard as int).len() > 0);
                assert(chain0.len() > guard);
                assert(chain0.skip(guard as int)[0] == prev_cluster);
                assert(chain0[guard as int] == prev_cluster);
                assert(chain0.skip(guard as int).drop_first() =~= chain0.skip(
                    guard as int + 1));
                assert(spec_chain(contents, self.fat_start_sector, prev_cluster,
                    MAX_CHAIN_CLUSTERS - guard) == seq![prev_cluster] + spec_chain(contents,
                    self.fat_start_sector, spec_next_cluster(contents,
                    self.fat_start_sector, prev_cluster) as u32, MAX_CHAIN_CLUSTERS - guard
                    - 1));
                assert(current_cluster == spec_next_cluster(contents, self.fat_start_sector,
                    prev_cluster) as u32);
                assert(spec_chain(contents, self.fat_start_sector, current_cluster,
                    MAX_CHAIN_CLUSTERS - (guard + 1)) =~= chain0.skip(guard as int + 1));
            }
            guard = guard + 1;
        }
        proof {
            if current_cluster == 0 {
                assert(chain0.skip(guard as int) =~= Seq::<u32>::empty());
            }
            assert(chain0.len() <= guard);
        }
        Ok(None)
    }

    /// Follow a `/`-separated path from the root directory down to an
    /// entry.
    pub fn find_by_path(&self, path: &str) -> (r: Result<Option<DirectoryEntry>,
        &'static str>)
        requires
            self.fs_wf(),
            self.fat_start_sector + 0x20_0000 <= u32::MAX,
        ensures
            r matches Ok(Some(e)) ==> e.wf() && !e.spec_is_free() && exists|c: int, k: int|
                entry_on_volume(self.disk.contents(), self.data_start_sector,
                self.sectors_per_cluster, c, k, e),
    {
        let bytes = path.as_bytes();
        // split the path into its non-empty components
        let mut components: Vec<Vec<u8>> = Vec::new();
        let mut current: Vec<u8> = Vec::new();
        let mut i: usize = 0;
        let n = bytes.len();
        while i < n
            invariant
                n == bytes@.len(),
                0 <= i <= n,
            decreases n - i,
        {
            let b = bytes[i];
            if b == 47 {
                if current.len() > 0 {
                    components.push(current);
                    current = Vec::new();
                }
            } else {
                current.push(b);
            }
            i = i + 1;
        }
        if current.len() > 0 {
            components.push(current);
        }
        if components.len() == 0 {
            return Err("Invalid path");
        }
        let mut current_cluster = self.root_dir_cluster;
        let count = components.len();
        let mut ci: usize = 0;
        while ci < count
            invariant
                self.fs_wf(),
                self.fat_start_sector + 0x20_0000 <= u32::MAX,
                count == components@.len(),
                0 <= ci < count,
            decreases count - ci,
        {
            let found = match self.find_in_directory(current_cluster,
                components[ci].as_slice()) {
                Ok(f) => f,
                Err(e) => {
                    return Err(e);
                },
            };
            match found {
                Some(entry) => {
                    if ci == count - 1 {
                        return Ok(Some(entry));
                    } else if entry.is_directory() {
                        current_cluster = entry.get_first_cluster();
                    } else {
                        return Err("Not a directory");
                    }
                },
                None => {
                    return Ok(None);
                },
            }
            ci = ci + 1;
        }
        Ok(None)
    }

    /// The chain of clusters of a file, starting from its first
    /// cluster and following the FAT until an end marker.
    pub fn build_cluster_chain(&self, start_cluster: u32) -> (r: Result<Vec<u32>,
        &'static str>)
        requires
            self.fs_wf(),
            self.fat_start_sector + 0x20_0000 <= u32::MAX,
        ensures
            r matches Ok(chain) ==> chain_follows_fat(self.disk.contents(),
                self.fat_start_sector, start_cluster, chain@),
    {
        let mut chain: Vec<u32> = Vec::new();
        let mut current_cluster = start_cluster;
        let mut count: usize = 0;
        while current_cluster != 0 && current_cluster < 0x0FFF_FFF8
            && count < MAX_CHAIN_CLUSTERS
            invariant
                self.fs_wf(),
                self.fat_start_sector + 0x20_0000 <= u32::MAX,
                0 <= count <= MAX_CHAIN_CLUSTERS,
                chain@.len() == count,
                chain@.len() > 0 ==> chain@[0] == start_cluster,
                chain@.len() > 0 ==> current_cluster == spec_next_cluster(
                    self.disk.contents(), self.fat_start_sector, chain@.last()),
                chain@.len() == 0 ==> current_cluster == start_cluster,
                forall|k: int|
                    0 <= k < chain@.len() ==> 0 < (#[trigger] chain@[k]) < 0x0FFF_FFF8,
                forall|k: int|
                    0 <= k < chain@.len() - 1 ==> chain@[k + 1] == spec_next_cluster(
                        self.disk.contents(), self.fat_start_sector, chain@[k]),
            decreases MAX_CHAIN_CLUSTERS - count,
        {
            chain.push(current_cluster);
            current_cluster = match self.get_next_cluster(current_cluster) {
                Ok(c) => c,
                Err(e) => {
                    return Err(e);
                },
            };
            count = count + 1;
        }
        Ok(chain)
    }

    /// Mount: read the boot sector and derive the volume geometry.
    /// Volumes without 512-byte sectors, or with an impossible layout,
    /// are rejected.
    pub fn init(&mut self) -> (r: Result<(), &'static str>)
        requires
            old(self).disk.disk_wf(),
            old(self).next_file_handle_id >= 1,
        ensures
            final(self).disk == old(self).disk,
            final(self).next_file_handle_id == old(self).next_file_handle_id,
            final(self).open_files@ == old(self).open_files@,
            r is Ok == ({
                let bs = spec_boot_sector(old(self).disk.contents().subrange(0, 512));
                &&& 512 <= old(self).disk.contents().len()
                &&& bs.bytes_per_sector == 512
                &&& 1 <= bs.sectors_per_cluster <= 128
                &&& bs.reserved_sector_count + 2 * bs.sectors_per_fat_32 <= u32::MAX
            }),
            r matches Ok(_) ==> ({
                let bs = spec_boot_sector(old(self).disk.contents().subrange(0, 512));
                &&& final(self).fs_wf()
                &&& final(self).bytes_per_sector == bs.bytes_per_sector
                &&& final(self).sectors_per_cluster == bs.sectors_per_cluster
                &&& final(self).root_dir_cluster == bs.root_cluster
                &&& final(self).fat_start_sector == bs.reserved_sector_count
                &&& final(self).data_start_sector == bs.reserved_sector_count + 2
                    * bs.sectors_per_fat_32
            }),
    {
        let boot_sector = match self.read_boot_sector() {
            Ok(bs) => bs,
            Err(e) => {
                return Err(e);
            },
        };
        if boot_sector.bytes_per_sector != 512 {
            return Err("Unsupported sector size");
        }
        if boot_sector.sectors_per_cluster == 0 || boot_sector.sectors_per_cluster > 128 {
            return Err("Unsupported cluster size");
        }
        let fat_size = boot_sector.sectors_per_fat_32;
        if fat_size as u64 * 2 + boot_sector.reserved_sector_count as u64
            > u32::MAX as u64 {
            return Err("Invalid FAT32 layout");
        }
        self.bytes_per_sector = boot_sector.bytes_per_sector as u32;
        self.sectors_per_cluster = boot_sector.sectors_per_cluster as u32;
        self.root_dir_cluster = boot_sector.root_cluster;
        self.fat_start_sector = boot_sector.reserved_sector_count as u32;
        self.data_start_sector = self.fat_start_sector + NUM_FATS * fat_size;
        Ok(())
    }

    /// Open a file by path: build its cluster chain and hand out a
    /// fresh file handle positioned at the start.
    pub fn open(&mut self, path: &str) -> (r: Result<FileHandle, &'static str>)
        requires
            old(self).fs_wf(),
            old(self).fat_start_sector + 0x20_0000 <= u32::MAX,
            old(self).next_file_handle_id < usize::MAX,
        ensures
            final(self).fs_wf(),
            final(self).disk == old(self).disk,
            r matches Ok(h) ==> {
                &&& h.id == old(self).next_file_handle_id
                &&& h.position == 0
                &&& final(self).next_file_handle_id == old(self).next_file_handle_id + 1
                &&& final(self).open_files@.len() == old(self).open_files@.len() + 1
                &&& final(self).open_files@.last().0 == h
                &&& opened_file_ok(old(self).disk.contents(), old(self).data_start_sector,
                    old(self).sectors_per_cluster, old(self).fat_start_sector, h, final(
                    self).open_files@.last().1@)
            },
            r is Err ==> final(self).open_files@ == old(self).open_files@
                && final(self).next_file_handle_id == old(self).next_file_handle_id,
    {
        let entry = match self.find_by_path(path) {
            Ok(Some(entry)) => entry,
            Ok(None) => {
                return Err("File not found");
            },
            Err(e) => {
                return Err(e);
            },
        };
        if entry.is_directory() {
            return Err("Cannot open a directory as a file");
        }
        let handle = FileHandle {
            id: self.next_file_handle_id,
            position: 0,
            size: entry.file_size as usize,
        };
        let cluster_chain = match self.build_cluster_chain(entry.get_first_cluster()) {
            Ok(c) => c,
            Err(e) => {
                return Err(e);
            },
        };
        self.open_files.push((handle, cluster_chain));
        self.next_file_handle_id = self.next_file_handle_id + 1;
        proof {
            let c0 = choose|c: int, k: int|
                entry_on_volume(self.disk.contents(), self.data_start_sector,
                    self.sectors_per_cluster, c, k, entry);
            assert(entry_on_volume(old(self).disk.contents(), old(self).data_start_sector,
                old(self).sectors_per_cluster, c0.0, c0.1, entry));
        }
        Ok(handle)
    }

    /// Read up to `max_len` bytes at the handle's position, without
    /// crossing the current cluster; advances the position by the
    /// number of bytes returned, which come verbatim from the file's
    /// cluster on disk.
    pub fn read(&self, handle: &mut FileHandle, max_len: usize) -> (r: Result<Vec<u8>,
        &'static str>)
        requires
            self.fs_wf(),
        ensures
            final(handle).id == old(handle).id,
            final(handle).size == old(handle).size,
            r matches Ok(d) ==> final(handle).position == old(handle).position + d@.len()
                && d@.len() <= max_len,
            r is Err ==> *final(handle) == *old(handle),
            handle_index_of(self.open_files@, old(handle).id) is None ==> r is Err,
            handle_index_of(self.open_files@, old(handle).id) is Some && old(handle).position
                >= old(handle).size ==> (r matches Ok(d) && d@.len() == 0),
            ({
                let fi = handle_index_of(self.open_files@, old(handle).id);
                &&& fi is Some
                &&& old(handle).position < old(handle).size
                &&& ({
                    let chain = self.open_files@[fi.unwrap()].1;
                    let cs = self.sectors_per_cluster as int * 512;
                    let ci = old(handle).position as int / cs;
                    &&& ci < chain@.len()
                    &&& ({
                        let cluster = chain@[ci];
                        let first = self.data_start_sector + (cluster - 2)
                            * self.sectors_per_cluster;
                        &&& 2 <= cluster < 0x0FFF_FFF8
                        &&& first + self.sectors_per_cluster <= u32::MAX
                        &&& 512 * (first + self.sectors_per_cluster)
                            <= self.disk.contents().len()
                    })
                })
            }) ==> r is Ok,
            r matches Ok(d) ==> d@.len() == 0 || ({
                let fi = handle_index_of(self.open_files@, old(handle).id).unwrap();
                let chain = self.open_files@[fi].1;
                let cluster_size = self.sectors_per_cluster * 512;
                let ci = old(handle).position as int / cluster_size as int;
                let co = old(handle).position as int % cluster_size as int;
                &&& 0 <= ci < chain@.len()
                &&& ({
                    let first = self.data_start_sector + (chain@[ci] - 2)
                        * self.sectors_per_cluster;
                    d@ == self.disk.contents().subrange(512 * first + co, 512 * first + co
                        + d@.len())
                })
            }),
    {
        let ghost files0 = self.open_files@;
        let files_count = self.open_files.len();
        let mut found: Option<usize> = None;
        let mut fi: usize = 0;
        while fi < files_count && found.is_none()
            invariant
                files0 == self.open_files@,
                files_count == files0.len(),
                0 <= fi <= files_count,
                forall|j: int| 0 <= j < fi ==> (#[trigger] files0[j]).0.id != old(handle).id,
                handle.id == old(handle).id,
                found matches Some(u) ==> handle_index_of(files0, old(handle).id)
                    == Some(u as int) && (u as int) < files0.len(),
            decreases files_count - fi, (if found.is_none() { 1int } else { 0int }),
        {
            if self.open_files[fi].0.id == handle.id {
                proof {
                    lemma_handle_index_of_prefix(files0, old(handle).id, fi as int);
                    assert(files0.skip(fi as int)[0] == files0[fi as int]);
                }
                found = Some(fi);
            } else {
                fi = fi + 1;
            }
        }
        let file_index = match found {
            Some(u) => u,
            None => {
                proof {
                    lemma_handle_index_of_prefix(files0, old(handle).id,
                        files_count as int);
                    assert(files0.skip(files_count as int) =~= Seq::<(FileHandle,
                        Vec<u32>)>::empty());
                }
                return Err("Invalid file handle");
            },
        };
        let chain = &self.open_files[file_index].1;
        if handle.position >= handle.size {
            return Ok(Vec::new());
        }
        let cluster_size = (self.sectors_per_cluster * self.bytes_per_sector) as usize;
        let cluster_index = handle.position / cluster_size;
        if cluster_index >= chain.len() {
            return Err("Invalid cluster index");
        }
        let cluster = chain[cluster_index];
        let cluster_offset = handle.position % cluster_size;
        if cluster < 2 || cluster >= 0x0FFF_FFF8 {
            return Err("Invalid cluster in chain");
        }
        proof {
            assert((cluster as int - 2) * self.sectors_per_cluster as int <= 0x0FFF_FFF8
                * 128) by (nonlinear_arith)
                requires
                    2 <= cluster as int <= 0x0FFF_FFF8,
                    0 <= self.sectors_per_cluster as int <= 128,
            ;
        }
        if self.data_start_sector as u64 + (cluster as u64 - 2)
            * self.sectors_per_cluster as u64 + self.sectors_per_cluster as u64
            > u32::MAX as u64 {
            return Err("Cluster out of range");
        }
        let temp_buffer = match self.read_cluster(cluster) {
            Ok(b) => b,
            Err(e) => {
                return Err(e);
            },
        };
        // how much to hand back: capped by the request, the file size
        // and the end of this cluster
        let mut bytes_to_read = max_len;
        if handle.size - handle.position < bytes_to_read {
            bytes_to_read = handle.size - handle.position;
        }
        proof {
            vstd::arithmetic::div_mod::lemma_mod_bound(old(handle).position as int,
                cluster_size as int);
            vstd::arithmetic::div_mod::lemma_fundamental_div_mod(
                old(handle).position as int, cluster_size as int);
        }
        if cluster_size - cluster_offset < bytes_to_read {
            bytes_to_read = cluster_size - cluster_offset;
        }
        let mut data: Vec<u8> = Vec::new();
        let mut i: usize = 0;
        while i < bytes_to_read
            invariant
                0 <= i <= bytes_to_read,
                cluster_offset + bytes_to_read <= temp_buffer@.len() || bytes_to_read == 0,
                temp_buffer@.len() <= usize::MAX,
                data@.len() == i,
                forall|j: int| 0 <= j < i ==> data@[j] == temp_buffer@[cluster_offset + j],
            decreases bytes_to_read - i,
        {
            data.push(temp_buffer[cluster_offset + i]);
            i = i + 1;
        }
        proof {
            if bytes_to_read > 0 {
                let first = self.data_start_sector + (cluster as int - 2)
                    * self.sectors_per_cluster;
                assert(data@ =~= self.disk.contents().subrange(512 * first
                    + cluster_offset as int, 512 * first + cluster_offset as int
                    + bytes_to_read as int));
            }
        }
        handle.position = handle.position + bytes_to_read;
        Ok(data)
    }

    /// Writing is not supported by this driver; nothing changes.
    pub fn write(&mut self, _handle: &mut FileHandle, _buffer: &Vec<u8>) -> (r: Result<usize,
        &'static str>)
        ensures
            r is Err,
            *final(self) == *old(self),
            *final(_handle) == *old(_handle),
    {
        Err("Write operations not implemented")
    }

    /// Forget an open file handle.
    pub fn close(&mut self, handle: FileHandle) -> (r: Result<(), &'static str>)
        ensures
            final(self).disk == old(self).disk,
            final(self).next_file_handle_id == old(self).next_file_handle_id,
            match handle_index_of(old(self).open_files@, handle.id) {
                Some(i) => r is Ok && final(self).open_files@ == old(
                    self).open_files@.remove(i),
                None => r is Err && final(self).open_files@ == old(self).open_files@,
            },
    {
        let files_count = self.open_files.len();
        let ghost files0 = self.open_files@;
        let mut fi: usize = 0;
        while fi < files_count
            invariant
                *self == *old(self),
                files0 == self.open_files@,
                files_count == files0.len(),
                0 <= fi <= files_count,
                forall|j: int| 0 <= j < fi ==> (#[trigger] files0[j]).0.id != handle.id,
            decreases files_count - fi,
        {
            if self.open_files[fi].0.id == handle.id {
                proof {
                    lemma_handle_index_of_prefix(files0, handle.id, fi as int);
                    assert(files0.skip(fi as int)[0] == files0[fi as int]);
                }
                let _ = self.open_files.remove(fi);
                return Ok(());
            }
            fi = fi + 1;
        }
        proof {
            lemma_handle_index_of_prefix(files0, handle.id, files_count as int);
            assert(files0.skip(files_count as int) =~= Seq::<(FileHandle, Vec<u32>)>::empty());
        }
        Err("Invalid file handle")
    }
}

impl<D: Disk> crate::fs::FileSystem for FileSystem<D> {
    fn init(&mut self) -> Result<(), &'static str> {
        if self.next_file_handle_id == 0 || !self.disk.check_wf() {
            return Err("Filesystem not constructed");
        }
        FileSystem::<D>::init(self)
    }

    fn open(&mut self, path: &str) -> Result<FileHandle, &'static str> {
        if !(self.bytes_per_sector == 512 && self.sectors_per_cluster >= 1
            && self.sectors_per_cluster <= 128 && self.next_file_handle_id >= 1
            && self.next_file_handle_id < usize::MAX && self.fat_start_sector
            <= u32::MAX - 0x20_0000 && self.disk.check_wf()) {
            return Err("Filesystem not initialized");
        }
        FileSystem::<D>::open(self, path)
    }

    fn read(&self, handle: &mut FileHandle, max_len: usize) -> Result<Vec<u8>, &'static str> {
        if !(self.bytes_per_sector == 512 && self.sectors_per_cluster >= 1
            && self.sectors_per_cluster <= 128 && self.next_file_handle_id >= 1
            && self.disk.check_wf()) {
            return Err("Filesystem not initialized");
        }
        FileSystem::<D>::read(self, handle, max_len)
    }

    fn write(&mut self, handle: &mut FileHandle, buffer: &Vec<u8>) -> Result<usize,
        &'static str> {
        FileSystem::<D>::write(self, handle, buffer)
    }

    fn close(&mut self, handle: FileHandle) -> Result<(), &'static str> {
        FileSystem::<D>::close(self, handle)
    }
}

} // verus!
