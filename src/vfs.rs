use vstd::prelude::*;

use crate::bytes::{le32, read_le32};

verus! {

/// Byte offset of the partition table in the first sector.
pub const MBR_PARTITION_TABLE_OFFSET: usize = 446;

/// Bytes of the partition table: four records of 16 bytes.
pub const MBR_PARTITION_TABLE_SIZE: usize = 64;

/// The kind of a directory node.
#[derive(Clone, Copy, Debug, PartialEq, Eq, Structural)]
pub enum FileType {
    File,
    Dir,
    Link,
}

/// The sectors of a partition: from `start` up to `end`.
pub struct PtPosition {
    pub start: u64,
    pub end: u64,
}

/// One 16-byte record of an MBR partition table.
#[derive(Clone, Copy, Debug, PartialEq, Eq, Structural)]
pub struct MbrPtItem {
    pub sign: u8,
    pub fs_type: u8,
    pub start_lba: u32,
    pub size: u32,
}

/// Whether the record holds the fields of the 16 bytes at `b[at..]`.
pub open spec fn record_at(b: Seq<u8>, at: int, r: MbrPtItem) -> bool {
    &&& r.sign == b[at]
    &&& r.fs_type == b[at + 4]
    &&& r.start_lba == le32(b, at + 8)
    &&& r.size == le32(b, at + 12)
}

/// Partition type ids of FAT file systems.
pub open spec fn is_fat_id(id: u8) -> bool {
    id == 0x01 || id == 0x04 || id == 0x06 || id == 0x0b || id == 0x0c || id == 0x0e
}

/// A record the image is searched for a file system in: bootable (0x80) or
/// not (0x00).
pub open spec fn usable_sign(sign: u8) -> bool {
    sign == 0x80 || sign == 0x00
}

pub fn is_fat_partition_type(id: u8) -> (r: bool)
    ensures
        r == is_fat_id(id),
{
    id == 0x01 || id == 0x04 || id == 0x06 || id == 0x0b || id == 0x0c || id == 0x0e
}

/// The four records of a 64-byte partition table.
pub fn parse_partition_table(table: &Vec<u8>) -> (r: Vec<MbrPtItem>)
    requires
        table@.len() == 64,
    ensures
        r@.len() == 4,
        forall|i: int| 0 <= i < 4 ==> record_at(table@, 16 * i, #[trigger] r@[i]),
{
    let mut r: Vec<MbrPtItem> = Vec::new();
    let mut i: usize = 0;
    while i < 4
        invariant
            i <= 4,
            table@.len() == 64,
            r@.len() == i,
            forall|k: int| 0 <= k < i ==> record_at(table@, 16 * k, #[trigger] r@[k]),
        decreases 4 - i,
    {
        let at = 16 * i;
        r.push(MbrPtItem {
            sign: table[at],
            fs_type: table[at + 4],
            start_lba: read_le32(table, at + 8),
            size: read_le32(table, at + 12),
        });
        i = i + 1;
    }
    r
}

/// The sector ranges `(start, end)` of the usable FAT records among the
/// first `n` records of a partition table, in table order.
pub open spec fn fat_ranges(table: Seq<u8>, n: nat) -> Seq<(u64, u64)>
    decreases n,
{
    if n == 0 {
        Seq::empty()
    } else {
        let prev = fat_ranges(table, (n - 1) as nat);
        let at = 16 * (n - 1);
        if usable_sign(table[at]) && is_fat_id(table[at + 4]) {
            let start = le32(table, at + 8);
            prev.push((start as u64, (start + le32(table, at + 12)) as u64))
        } else {
            prev
        }
    }
}

pub open spec fn ranges_of(v: Seq<PtPosition>) -> Seq<(u64, u64)> {
    v.map_values(|p: PtPosition| (p.start, p.end))
}

/// The sector ranges of the FAT partitions of a partition table, in table order.
pub fn fat_partitions(table: &Vec<u8>) -> (r: Vec<PtPosition>)
    requires
        table@.len() == 64,
    ensures
        ranges_of(r@) == fat_ranges(table@, 4),
{
    let items = parse_partition_table(table);
    let mut r: Vec<PtPosition> = Vec::new();
    let mut i: usize = 0;
    while i < 4
        invariant
            i <= 4,
            items@.len() == 4,
            table@.len() == 64,
            forall|j: int| 0 <= j < 4 ==> record_at(table@, 16 * j, #[trigger] items@[j]),
            ranges_of(r@) == fat_ranges(table@, i as nat),
        decreases 4 - i,
    {
        let it = items[i];
        assert(record_at(table@, 16 * i, items@[i as int]));
        if (it.sign == 0x80 || it.sign == 0x00) && is_fat_partition_type(it.fs_type) {
            let start = it.start_lba as u64;
            let end = start + it.size as u64;
            let ghost before = r@;
            r.push(PtPosition { start, end });
            assert(ranges_of(r@) =~= ranges_of(before).push((start, end)));
        }
        i = i + 1;
    }
    r
}

} // verus!
