use vstd::prelude::*;

use crate::bytes::{le16, le32, read_le16, read_le32};
use crate::error::FsError;
use crate::mem_pool::{CallBack, Empty, Pool};
use crate::vfs::FileType;

pub mod dir;
pub mod engine;
pub mod entry;
pub mod long_name;
pub mod ops;
pub mod short_name;
pub mod table;
pub mod time;

verus! {

/// The FAT variant, decided by the number of data clusters.
#[derive(Clone, Copy, Debug, PartialEq, Eq, Structural)]
pub enum FatFsType {
    FAT12,
    FAT16,
    FAT32,
}

/// The variant for a count of data clusters.
pub open spec fn variant_of(count: int) -> FatFsType {
    if count < 4085 {
        FatFsType::FAT12
    } else if count < 65525 {
        FatFsType::FAT16
    } else {
        FatFsType::FAT32
    }
}

/// The fields of a FAT boot sector that the engine reads.
pub struct BPB {
    pub bytes_per_sec: u16,
    pub sec_per_clus: u8,
    pub rsvd_sec_cnt: u16,
    pub num_fats: u8,
    pub root_ent_cnt: u16,
    pub tot_sec16: u16,
    pub media: u8,
    pub fat_sz16: u16,
    pub sec_per_trk: u16,
    pub num_heads: u16,
    pub hidd_sec: u32,
    pub tot_sec32: u32,
    pub fat_sz32: u32,
    pub ext_flags: u16,
    pub fs_ver: u16,
    pub root_clus: u32,
    pub fs_info: u16,
    pub bk_boot_sec: u16,
    pub drv_num: u8,
    pub boot_sig: u8,
    pub vol_id: u32,
    pub signature: u16,
}

impl BPB {
    pub fn new_empty() -> (r: BPB)
        ensures
            r == BPB::empty_record(),
    {
        BPB {
            bytes_per_sec: 0,
            sec_per_clus: 0,
            rsvd_sec_cnt: 0,
            num_fats: 0,
            root_ent_cnt: 0,
            tot_sec16: 0,
            media: 0,
            fat_sz16: 0,
            sec_per_trk: 0,
            num_heads: 0,
            hidd_sec: 0,
            tot_sec32: 0,
            fat_sz32: 0,
            ext_flags: 0,
            fs_ver: 0,
            root_clus: 0,
            fs_info: 0,
            bk_boot_sec: 0,
            drv_num: 0,
            boot_sig: 0,
            vol_id: 0,
            signature: 0,
        }
    }

    /// The record whose fields are all zero.
    pub open spec fn empty_record() -> BPB {
        BPB {
            bytes_per_sec: 0,
            sec_per_clus: 0,
            rsvd_sec_cnt: 0,
            num_fats: 0,
            root_ent_cnt: 0,
            tot_sec16: 0,
            media: 0,
            fat_sz16: 0,
            sec_per_trk: 0,
            num_heads: 0,
            hidd_sec: 0,
            tot_sec32: 0,
            fat_sz32: 0,
            ext_flags: 0,
            fs_ver: 0,
            root_clus: 0,
            fs_info: 0,
            bk_boot_sec: 0,
            drv_num: 0,
            boot_sig: 0,
            vol_id: 0,
            signature: 0,
        }
    }

    /// Whether the record holds the fields of the boot sector `b`.
    pub open spec fn decodes(&self, b: Seq<u8>) -> bool {
        &&& self.bytes_per_sec == le16(b, 11)
        &&& self.sec_per_clus == b[13]
        &&& self.rsvd_sec_cnt == le16(b, 14)
        &&& self.num_fats == b[16]
        &&& self.root_ent_cnt == le16(b, 17)
        &&& self.tot_sec16 == le16(b, 19)
        &&& self.media == b[21]
        &&& self.fat_sz16 == le16(b, 22)
        &&& self.sec_per_trk == le16(b, 24)
        &&& self.num_heads == le16(b, 26)
        &&& self.hidd_sec == le32(b, 28)
        &&& self.tot_sec32 == le32(b, 32)
        &&& self.fat_sz32 == le32(b, 36)
        &&& self.ext_flags == le16(b, 40)
        &&& self.fs_ver == le16(b, 42)
        &&& self.root_clus == le32(b, 44)
        &&& self.fs_info == le16(b, 48)
        &&& self.bk_boot_sec == le16(b, 50)
        &&& self.drv_num == b[64]
        &&& self.boot_sig == b[66]
        &&& self.vol_id == le32(b, 67)
        &&& self.signature == le16(b, 510)
    }

    /// Decodes a 512-byte boot sector (little-endian fields at fixed offsets).
    pub fn from_sector(b: &Vec<u8>) -> (r: BPB)
        requires
            b@.len() >= 512,
        ensures
            r.decodes(b@),
    {
        BPB {
            bytes_per_sec: read_le16(b, 11),
            sec_per_clus: b[13],
            rsvd_sec_cnt: read_le16(b, 14),
            num_fats: b[16],
            root_ent_cnt: read_le16(b, 17),
            tot_sec16: read_le16(b, 19),
            media: b[21],
            fat_sz16: read_le16(b, 22),
            sec_per_trk: read_le16(b, 24),
            num_heads: read_le16(b, 26),
            hidd_sec: read_le32(b, 28),
            tot_sec32: read_le32(b, 32),
            fat_sz32: read_le32(b, 36),
            ext_flags: read_le16(b, 40),
            fs_ver: read_le16(b, 42),
            root_clus: read_le32(b, 44),
            fs_info: read_le16(b, 48),
            bk_boot_sec: read_le16(b, 50),
            drv_num: b[64],
            boot_sig: b[66],
            vol_id: read_le32(b, 67),
            signature: read_le16(b, 510),
        }
    }

    /// FAT size in sectors: the 16-bit field unless it is zero.
    pub open spec fn fat_size(&self) -> int {
        if self.fat_sz16 != 0 {
            self.fat_sz16 as int
        } else {
            self.fat_sz32 as int
        }
    }

    /// Total sectors: the 16-bit field unless it is zero.
    pub open spec fn total_sectors(&self) -> int {
        if self.tot_sec16 != 0 {
            self.tot_sec16 as int
        } else {
            self.tot_sec32 as int
        }
    }

    /// Sectors of the fixed root directory, rounded up.
    pub open spec fn root_dir_sectors(&self) -> int {
        (self.root_ent_cnt as int * 32 + self.bytes_per_sec as int - 1) / self.bytes_per_sec as int
    }

    /// Sectors before the data region.
    pub open spec fn meta_sectors(&self) -> int {
        self.rsvd_sec_cnt as int + self.root_dir_sectors() + self.num_fats as int * self.fat_size()
    }

    pub open spec fn count_of_clusters(&self) -> int {
        (self.total_sectors() - self.meta_sectors()) / self.sec_per_clus as int
    }

    /// Bytes of one FAT cell for the variant the record describes.
    pub open spec fn cell_width(&self) -> int {
        if variant_of(self.count_of_clusters()) == FatFsType::FAT32 {
            4
        } else {
            2
        }
    }

    /// Whether writes go to a single FAT (bit 7 of `ext_flags`).
    pub open spec fn single_fat(&self) -> bool {
        self.ext_flags & 0x80 != 0
    }

    /// The FAT that is written when mirroring is off (low 4 bits of `ext_flags`).
    pub open spec fn active_fat(&self) -> int {
        (self.ext_flags & 0x0f) as int
    }

    /// The geometry the engine accepts: a sector of 512 to 4096 bytes and a
    /// cluster of a power of two of sectors, at least one FAT, an active FAT
    /// that exists, no more sectors of
    /// metadata than sectors, and offsets that fit the engine's counters.
    pub open spec fn acceptable(&self, start: u64) -> bool {
        &&& (self.bytes_per_sec == 512 || self.bytes_per_sec == 1024 || self.bytes_per_sec == 2048
            || self.bytes_per_sec == 4096)
        &&& (self.sec_per_clus == 1 || self.sec_per_clus == 2 || self.sec_per_clus == 4
            || self.sec_per_clus == 8 || self.sec_per_clus == 16 || self.sec_per_clus == 32
            || self.sec_per_clus == 64 || self.sec_per_clus == 128)
        &&& self.num_fats >= 1
        &&& self.fat_size() >= 1
        &&& self.meta_sectors() <= self.total_sectors()
        &&& self.count_of_clusters() <= 0x0FFF_FFF5
        &&& (self.single_fat() ==> self.active_fat() < self.num_fats as int)
        &&& start < 0x1_0000_0000
    }
}

/// A directory node held in the engine's pool.
pub struct DirInfo {
    pub name: Vec<char>,
    pub ftype: FileType,
    /// Pool index of the parent directory.
    pub parent: usize,
    /// Pool index of this node.
    pub idx: usize,
    /// Pool indices of the children found so far.
    pub children: Vec<usize>,
    /// Slot of the node's short entry within the parent's directory stream.
    pub offset: u32,
    /// The cluster chain that holds the node's data.
    pub clus_list: Vec<u32>,
}

impl Empty for DirInfo {
    fn new_empty() -> (r: DirInfo) {
        DirInfo {
            name: Vec::new(),
            ftype: FileType::File,
            parent: 0,
            idx: 0,
            children: Vec::new(),
            offset: 0,
            clus_list: Vec::new(),
        }
    }

    fn is_empty(&self) -> (r: bool) {
        self.offset == 0
    }
}

impl CallBack for DirInfo {
    open spec fn with_index(&self, idx: usize) -> DirInfo {
        DirInfo { idx: idx, ..*self }
    }

    fn set_index(&mut self, idx: usize) {
        self.idx = idx;
    }
}

/// A FAT file system within a partition of an image.
pub struct FatFs {
    /// Sectors per FAT.
    pub fat_size: u64,
    /// Sectors in the partition.
    pub tot_sec: u64,
    /// Sectors of the data region.
    pub data_sec: u64,
    /// Absolute sector of the first FAT.
    pub fat_start: u64,
    /// Absolute sector of the data region.
    pub data_start: u64,
    /// Largest valid cluster number.
    pub max_clus: u32,
    /// Largest cluster number that is valid and has a cell in the FAT.
    pub top_clus: u32,
    pub bytes_per_clus: u64,
    pub sec_per_clus: u64,
    pub bytes_per_sec: u64,
    pub num_fats: u64,
    /// Whether every FAT copy is written.
    pub mirrored: bool,
    /// The FAT that is read, and written alone when mirroring is off.
    pub active_fat: u64,
    /// Pool index of the root directory.
    pub root: usize,
    /// Directory nodes found so far.
    pub cache: Pool<DirInfo>,
    pub fs_type: FatFsType,
    pub bpb: BPB,
}

impl FatFs {
    pub open spec fn variant(&self) -> FatFsType {
        self.fs_type
    }

    pub open spec fn count_of_clusters(&self) -> int {
        self.max_clus - 1
    }

    pub open spec fn first_fat_sector(&self) -> int {
        self.fat_start as int
    }

    pub open spec fn data_sector(&self) -> int {
        self.data_start as int
    }

    pub open spec fn max_cluster(&self) -> int {
        self.max_clus as int
    }

    /// Largest cluster number whose cell the engine reads and writes.
    pub open spec fn top_cluster(&self) -> int {
        self.top_clus as int
    }

    pub open spec fn sector_bytes(&self) -> int {
        self.bytes_per_sec as int
    }

    pub open spec fn cluster_bytes(&self) -> int {
        self.bytes_per_clus as int
    }

    pub open spec fn nodes(&self) -> Seq<DirInfo> {
        self.cache.slots()
    }

    pub open spec fn root_index(&self) -> int {
        self.root as int
    }

    /// Bytes of one FAT cell.
    pub open spec fn cell_width(&self) -> int {
        if self.fs_type == FatFsType::FAT32 {
            4
        } else {
            2
        }
    }

    /// Byte offset of FAT copy `k`.
    pub open spec fn fat_copy_pos(&self, k: int) -> int {
        (self.fat_start as int + k * self.fat_size as int) * self.bytes_per_sec as int
    }

    /// Byte offset of the cell of `clus` in FAT copy `k`.
    pub open spec fn cell_pos(&self, k: int, clus: int) -> int {
        self.fat_copy_pos(k) + clus * self.cell_width()
    }

    /// Byte offset of the first byte of cluster `clus`.
    pub open spec fn cluster_pos(&self, clus: int) -> int {
        ((clus - 2) * self.sec_per_clus as int + self.data_start as int) * self.bytes_per_sec as int
    }

    /// The FAT copies that a change of a cell is written to.
    pub open spec fn written_copies(&self) -> Seq<int> {
        if self.mirrored {
            Seq::new(self.num_fats as nat, |k: int| k)
        } else {
            seq![self.active_fat as int]
        }
    }

    /// The state the engine keeps between calls.
    pub open spec fn wf(&self) -> bool {
        &&& 512 <= self.bytes_per_sec <= 4096
        &&& 1 <= self.sec_per_clus <= 128
        &&& self.bytes_per_clus == self.bytes_per_sec * self.sec_per_clus
        &&& self.bytes_per_clus % 32 == 0
        &&& self.bytes_per_clus <= 0x80000
        &&& self.bytes_per_clus >= 512
        &&& 1 <= self.num_fats <= 255
        &&& self.active_fat < self.num_fats
        &&& 1 <= self.fat_size <= 0xFFFF_FFFF
        &&& self.fat_start < 0x4_0000_0000
        &&& self.data_start == self.fat_start + self.num_fats * self.fat_size
        &&& 1 <= self.max_clus <= 0x0FFF_FFF6
        &&& self.top_clus <= self.max_clus
        &&& (self.top_clus + 1) * self.cell_width() <= self.fat_size * self.bytes_per_sec
        &&& self.fs_type == variant_of(self.max_clus - 1)
        &&& self.cache.wf()
        &&& self.cache.freed().len() == 0
        &&& self.root < self.cache.slots().len()
        &&& self.cache.slots().len() < 0x1_0000_0000
        &&& forall|i: int|
            0 <= i < self.cache.slots().len() ==> node_ok(#[trigger] self.cache.slots()[i], self.cache.slots().len() as int)
    }

    /// Bytes of one cluster.
    pub fn bytes_per_cluster(&self) -> (r: u64)
        ensures
            r == self.cluster_bytes(),
    {
        self.bytes_per_clus
    }

    /// Number of data clusters.
    pub fn cluster_count(&self) -> (r: u32)
        requires
            self.wf(),
        ensures
            r == self.count_of_clusters(),
    {
        self.max_clus - 1
    }

    /// The FAT variant.
    pub fn fs_variant(&self) -> (r: FatFsType)
        ensures
            r == self.variant(),
    {
        self.fs_type
    }

    /// Absolute sector of the first FAT.
    pub fn fat_start_sector(&self) -> (r: u64)
        ensures
            r == self.first_fat_sector(),
    {
        self.fat_start
    }

    /// Absolute sector of the data region.
    pub fn data_start_sector(&self) -> (r: u64)
        ensures
            r == self.data_sector(),
    {
        self.data_start
    }

    /// An engine with no geometry yet.
    pub fn new_empty() -> (r: FatFs)
        ensures
            r.nodes().len() == 0,
            r.cache.freed().len() == 0,
            r.fat_size == 0 && r.tot_sec == 0 && r.data_sec == 0 && r.fat_start == 0
                && r.data_start == 0 && r.max_clus == 0 && r.top_clus == 0 && r.bytes_per_clus == 0
                && r.sec_per_clus == 0 && r.bytes_per_sec == 512 && r.num_fats == 0 && r.mirrored
                && r.active_fat == 0 && r.root == 0 && r.fs_type == FatFsType::FAT32
                && r.bpb == BPB::empty_record(),
    {
        FatFs {
            fat_size: 0,
            tot_sec: 0,
            data_sec: 0,
            fat_start: 0,
            data_start: 0,
            max_clus: 0,
            top_clus: 0,
            bytes_per_clus: 0,
            sec_per_clus: 0,
            bytes_per_sec: 512,
            num_fats: 0,
            mirrored: true,
            active_fat: 0,
            root: 0,
            cache: Pool::new(),
            fs_type: FatFsType::FAT32,
            bpb: BPB::new_empty(),
        }
    }
}

/// A node whose references stay inside a pool of `n` nodes.
pub open spec fn node_ok(d: DirInfo, n: int) -> bool {
    &&& d.parent < n
    &&& forall|j: int| 0 <= j < d.children@.len() ==> #[trigger] d.children@[j] < n
}

impl FatFs {
    /// Whether the engine holds the geometry that the boot record `bpb` of
    /// a partition starting at sector `start` gives, with the root directory
    /// (cluster 2) as its only node.
    #[verifier::opaque]
    pub open spec fn set_up_from(&self, bpb: BPB, start: int) -> bool {
        &&& self.wf()
        &&& self.count_of_clusters() == bpb.count_of_clusters()
        &&& self.variant() == variant_of(bpb.count_of_clusters())
        &&& self.first_fat_sector() == start + bpb.rsvd_sec_cnt + bpb.root_dir_sectors()
        &&& self.data_sector() == self.first_fat_sector() + bpb.num_fats
            * bpb.fat_size()
        &&& self.cluster_bytes() == bpb.bytes_per_sec * bpb.sec_per_clus
        &&& self.nodes().len() == 1
        &&& self.root_index() == 0
        &&& self.nodes()[0].clus_list@ == seq![2u32]
        &&& self.nodes()[0].parent == 0
        &&& self.nodes()[0].ftype == FileType::Dir
        &&& self.bpb == bpb
        &&& self.tot_sec == bpb.total_sectors()
        &&& self.data_sec == bpb.total_sectors() - bpb.meta_sectors()
        &&& self.mirrored == (bpb.ext_flags & 0x80 == 0)
        &&& (!self.mirrored ==> self.active_fat == (bpb.ext_flags & 0x0f) as u64)
        &&& (self.mirrored ==> self.active_fat == 0)
        &&& self.num_fats == bpb.num_fats
        &&& self.fat_size == bpb.fat_size()
        &&& self.bytes_per_sec == bpb.bytes_per_sec
        &&& self.sec_per_clus == bpb.sec_per_clus
        &&& self.max_clus == bpb.count_of_clusters() + 1
    }

    /// Sets up the geometry from a decoded boot sector of the partition that
    /// starts at sector `start`, with the root directory as the only node.
    #[verifier::rlimit(50)]
    pub fn init_with_bpb(&mut self, bpb: BPB, start: u64) -> (r: Result<(), FsError>)
        ensures
            r is Ok <==> bpb.acceptable(start),
            r matches Err(e) ==> e == FsError::InvalidData,
            r is Err ==> *final(self) == *old(self),
            r is Ok ==> final(self).wf() && final(self).bpb == bpb && final(self).set_up_from(bpb, start as int),
    {
        let bps = bpb.bytes_per_sec as u64;
        let spc = bpb.sec_per_clus as u64;
        if !(bps == 512 || bps == 1024 || bps == 2048 || bps == 4096) {
            return Err(FsError::InvalidData);
        }
        if !(spc == 1 || spc == 2 || spc == 4 || spc == 8 || spc == 16 || spc == 32 || spc == 64
            || spc == 128) {
            return Err(FsError::InvalidData);
        }
        let num_fats = bpb.num_fats as u64;
        if num_fats < 1 {
            return Err(FsError::InvalidData);
        }
        let fat_size: u64 = if bpb.fat_sz16 != 0 {
            bpb.fat_sz16 as u64
        } else {
            bpb.fat_sz32 as u64
        };
        if fat_size < 1 {
            return Err(FsError::InvalidData);
        }
        let total: u64 = if bpb.tot_sec16 != 0 {
            bpb.tot_sec16 as u64
        } else {
            bpb.tot_sec32 as u64
        };
        let rds: u64 = (bpb.root_ent_cnt as u64 * 32 + bps - 1) / bps;
        assert(num_fats * fat_size <= 255 * 0xFFFF_FFFF) by (nonlinear_arith)
            requires
                num_fats <= 255,
                fat_size <= 0xFFFF_FFFF,
        ;
        let meta: u64 = bpb.rsvd_sec_cnt as u64 + rds + num_fats * fat_size;
        if meta > total {
            return Err(FsError::InvalidData);
        }
        let count: u64 = (total - meta) / spc;
        if count > 0x0FFF_FFF5 {
            return Err(FsError::InvalidData);
        }
        let fs_type = if count < 4085 {
            FatFsType::FAT12
        } else if count < 65525 {
            FatFsType::FAT16
        } else {
            FatFsType::FAT32
        };
        let width: u64 = if count >= 65525 {
            4
        } else {
            2
        };
        assert(fat_size * bps <= 0xFFFF_FFFF * 4096) by (nonlinear_arith)
            requires
                fat_size <= 0xFFFF_FFFF,
                bps <= 4096,
        ;
        let cells = fat_size * bps / width;
        assert(cells >= 128) by (nonlinear_arith)
            requires
                cells as int == (fat_size * bps) as int / (width as int),
                fat_size >= 1,
                bps >= 512,
                width == 2 || width == 4,
        ;
        let top: u64 = if count + 1 < cells - 1 {
            count + 1
        } else {
            cells - 1
        };
        assert((top + 1) * width <= fat_size * bps) by (nonlinear_arith)
            requires
                top + 1 <= cells,
                cells as int == (fat_size * bps) as int / (width as int),
                width > 0,
        ;
        let mirrored = bpb.ext_flags & 0x80 == 0;
        let active: u64 = if mirrored {
            0
        } else {
            (bpb.ext_flags & 0x0f) as u64
        };
        if !mirrored && active >= num_fats {
            return Err(FsError::InvalidData);
        }
        if start >= 0x1_0000_0000 {
            return Err(FsError::InvalidData);
        }
        let fat_start = start + bpb.rsvd_sec_cnt as u64 + rds;
        assert(bps * spc <= 4096 * 128) by (nonlinear_arith)
            requires
                bps <= 4096,
                spc <= 128,
        ;
        let bpc = bps * spc;
        assert(bpc % 32 == 0 && bpc >= 512) by (nonlinear_arith)
            requires
                bpc == bps * spc,
                bps == 512 || bps == 1024 || bps == 2048 || bps == 4096,
                spc >= 1,
        ;
        let mut cache: Pool<DirInfo> = Pool::new();
        let root = DirInfo {
            name: vec!['r', 'o', 'o', 't'],
            ftype: FileType::Dir,
            parent: 0,
            idx: 0,
            children: Vec::new(),
            offset: 0,
            clus_list: vec![2u32],
        };
        let root_idx = cache.append(root);
        self.fat_size = fat_size;
        self.tot_sec = total;
        self.data_sec = total - meta;
        self.fat_start = fat_start;
        self.data_start = fat_start + num_fats * fat_size;
        self.max_clus = (count + 1) as u32;
        self.top_clus = top as u32;
        self.bytes_per_clus = bpc;
        self.sec_per_clus = spc;
        self.bytes_per_sec = bps;
        self.num_fats = num_fats;
        self.mirrored = mirrored;
        self.active_fat = active;
        self.root = root_idx;
        self.cache = cache;
        self.fs_type = fs_type;
        self.bpb = bpb;
        assert(self.cache.slots()[0].children@.len() == 0);
        assert(self.cache.slots()[0].clus_list@ =~= seq![2u32]);
        proof {
            reveal(FatFs::set_up_from);
        }
        Ok(())
    }
}

} // verus!
