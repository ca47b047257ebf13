use vstd::prelude::*;

use crate::bytes::{le16, le16_bytes, le32, le32_bytes, lemma_le16_bytes, lemma_le32_bytes, read_le16, read_le32, splice};
use crate::error::FsError;
use crate::fat::{FatFs, FatFsType};
use crate::host_ops::FileHandler;

verus! {

impl FatFs {
    /// The value of the cell of `clus` in the FAT that is read (low 28 bits on FAT32).
    pub open spec fn fat_entry(&self, img: Seq<u8>, clus: int) -> int {
        let p = self.cell_pos(self.active_fat as int, clus);
        if self.fs_type == FatFsType::FAT32 {
            le32(img, p) % 0x1000_0000
        } else {
            le16(img, p)
        }
    }

    /// The smallest cell value that ends a chain.
    pub open spec fn eoc(&self) -> int {
        if self.fs_type == FatFsType::FAT32 {
            0x0FFF_FFF8
        } else {
            0xFFF8
        }
    }

    /// The value written to end a chain.
    pub open spec fn eoc_value(&self) -> u32 {
        if self.fs_type == FatFsType::FAT32 {
            0x0FFF_FFFFu32
        } else {
            0xFFFFu32
        }
    }

    /// The bytes of a cell holding `v`.
    pub open spec fn cell_bytes(&self, v: u32) -> Seq<u8> {
        if self.fs_type == FatFsType::FAT32 {
            le32_bytes(v)
        } else {
            le16_bytes((v % 0x10000) as u16)
        }
    }

    /// `img` once the cell of `clus` holds `v` in the first `k` written copies.
    pub open spec fn fat_written(&self, img: Seq<u8>, clus: int, v: u32, k: nat) -> Seq<u8>
        decreases k,
    {
        if k == 0 {
            img
        } else {
            splice(
                self.fat_written(img, clus, v, (k - 1) as nat),
                self.cell_pos(self.written_copies()[k - 1], clus),
                self.cell_bytes(v),
            )
        }
    }

    /// `img` once the cell of `clus` holds `v` in every written copy.
    pub open spec fn fat_set(&self, img: Seq<u8>, clus: int, v: u32) -> Seq<u8> {
        self.fat_written(img, clus, v, self.written_copies().len())
    }

    /// Whether `list` is the chain that starts at `list[0]`: each cluster's
    /// cell names the next, and the last one's cell ends the chain.
    pub open spec fn is_chain(&self, img: Seq<u8>, list: Seq<u32>) -> bool {
        &&& list.len() >= 1
        &&& forall|i: int| 0 <= i < list.len() ==> 2 <= #[trigger] list[i] <= self.max_clus
        &&& forall|i: int|
            0 <= i < list.len() - 1 ==> #[trigger] list[i + 1] == self.fat_entry(img, list[i] as int)
        &&& self.fat_entry(img, list.last() as int) >= self.eoc()
    }

    /// Whether `c` is the lowest free cluster from 3 on.
    pub open spec fn lowest_free(&self, img: Seq<u8>, c: int) -> bool {
        &&& 3 <= c <= self.top_clus
        &&& self.fat_entry(img, c) == 0
        &&& forall|j: int| 3 <= j < c ==> self.fat_entry(img, j) != 0
    }

    /// What an allocation of `c` after `last` leaves: `c` ends a chain and,
    /// unless it is the first cluster of one, `last` points to it.
    pub open spec fn alloc_image(&self, img: Seq<u8>, c: int, last: int, is_first: bool) -> Seq<u8> {
        let marked = self.fat_set(img, c, self.eoc_value());
        if is_first {
            marked
        } else {
            self.fat_set(marked, last, c as u32)
        }
    }

    /// Byte offset of the cell of `clus` in FAT copy `k`.
    fn cell_offset(&self, k: u64, clus: u32) -> (r: u64)
        requires
            self.wf(),
            k < self.num_fats,
            clus <= 0x1000_0000,
        ensures
            r == self.cell_pos(k as int, clus as int),
            r + 4 < 0x80_0000_0000_0000,
    {
        let w: u64 = if self.fs_type == FatFsType::FAT32 {
            4
        } else {
            2
        };
        assert(k * self.fat_size <= 255 * 0xFFFF_FFFF) by (nonlinear_arith)
            requires
                k <= 255,
                self.fat_size <= 0xFFFF_FFFF,
        ;
        let sec = self.fat_start + k * self.fat_size;
        assert(sec * self.bytes_per_sec <= 0x400_0000_0000 * 4096) by (nonlinear_arith)
            requires
                sec <= 0x400_0000_0000,
                self.bytes_per_sec <= 4096,
        ;
        sec * self.bytes_per_sec + clus as u64 * w
    }

    /// The cell of `clus` in the FAT that is read (the first one unless
    /// mirroring is off), low 28 bits on FAT32; FAT12 is not supported.
    pub fn get_next_clus<D: FileHandler>(&self, disk: &mut D, clus: u32) -> (r: Result<u32, FsError>)
        requires
            self.wf(),
        ensures
            final(disk).image() == old(disk).image(),
            self.variant() == FatFsType::FAT12 ==> r == Err::<u32, FsError>(FsError::Unsupported),
            r == Err::<u32, FsError>(FsError::InvalidInput) <==> self.variant() != FatFsType::FAT12
                && (clus < 2 || clus > self.max_cluster()),
            r matches Ok(v) ==> v == self.fat_entry(old(disk).image(), clus as int),
            r matches Err(e) ==> e == FsError::Unsupported || e == FsError::InvalidInput || e
                == FsError::Io,
    {
        if self.fs_type == FatFsType::FAT12 {
            return Err(FsError::Unsupported);
        }
        if clus < 2 || clus > self.max_clus {
            return Err(FsError::InvalidInput);
        }
        let pos = self.cell_offset(self.active_fat, clus);
        if self.fs_type == FatFsType::FAT32 {
            let mut buf: Vec<u8> = vec![0u8, 0u8, 0u8, 0u8];
            disk.seek(pos);
            match disk.read(&mut buf) {
                Ok(_) => {},
                Err(_) => return Err(FsError::Io),
            }
            let v = read_le32(&buf, 0);
            Ok(v % 0x1000_0000)
        } else {
            let mut buf: Vec<u8> = vec![0u8, 0u8];
            disk.seek(pos);
            match disk.read(&mut buf) {
                Ok(_) => {},
                Err(_) => return Err(FsError::Io),
            }
            let v = read_le16(&buf, 0);
            Ok(v as u32)
        }
    }

    /// Writes `value` into the cell of `clus` of every written FAT copy:
    /// all copies, or only the active one when mirroring is off.
    pub fn set_clus<D: FileHandler>(&self, disk: &mut D, clus: u32, value: u32) -> (r: Result<(), FsError>)
        requires
            self.wf(),
        ensures
            self.variant() == FatFsType::FAT12 ==> r == Err::<(), FsError>(FsError::Unsupported),
            r == Err::<(), FsError>(FsError::InvalidInput) <==> self.variant() != FatFsType::FAT12
                && (clus < 2 || clus > self.top_cluster()),
            r matches Err(e) ==> (e == FsError::Unsupported || e == FsError::InvalidInput) ==> final(
                disk).image() == old(disk).image(),
            r matches Err(e) ==> e == FsError::Unsupported || e == FsError::InvalidInput || e
                == FsError::Io,
            r is Ok ==> final(disk).image() == self.fat_set(old(disk).image(), clus as int, value),
    {
        if self.fs_type == FatFsType::FAT12 {
            return Err(FsError::Unsupported);
        }
        if clus < 2 || clus > self.top_clus {
            return Err(FsError::InvalidInput);
        }
        let mut bytes: Vec<u8> = Vec::new();
        if self.fs_type == FatFsType::FAT32 {
            crate::bytes::push_le32(&mut bytes, value);
        } else {
            crate::bytes::push_le16(&mut bytes, (value % 0x10000) as u16);
        }
        assert(bytes@ =~= self.cell_bytes(value));
        let n: u64 = if self.mirrored {
            self.num_fats
        } else {
            1
        };
        let ghost start = disk.image();
        let mut i: u64 = 0;
        while i < n
            invariant
                self.wf(),
                self.fs_type != FatFsType::FAT12,
                start == old(disk).image(),
                n == self.written_copies().len(),
                i <= n,
                2 <= clus <= self.top_clus,
                bytes@ == self.cell_bytes(value),
                disk.image() == self.fat_written(start, clus as int, value, i as nat),
            decreases n - i,
        {
            let k = if self.mirrored {
                i
            } else {
                self.active_fat
            };
            assert(k == self.written_copies()[i as int]);
            let pos = self.cell_offset(k, clus);
            disk.seek(pos);
            match disk.write(&bytes) {
                Ok(_) => {},
                Err(_) => return Err(FsError::Io),
            }
            i = i + 1;
        }
        Ok(())
    }

    /// The cluster chain that starts at `first_clus`.
    pub fn get_all_clus<D: FileHandler>(&self, disk: &mut D, first_clus: u32) -> (r: Result<Vec<u32>, FsError>)
        requires
            self.wf(),
        ensures
            final(disk).image() == old(disk).image(),
            r matches Ok(list) ==> self.is_chain(old(disk).image(), list@) && list@[0] == first_clus
                && list@.len() <= self.count_of_clusters(),
            r matches Err(e) ==> e == FsError::Unsupported || e == FsError::InvalidData || e == FsError::Io,
    {
        let ghost img = disk.image();
        if self.fs_type == FatFsType::FAT12 {
            return Err(FsError::Unsupported);
        }
        if first_clus < 2 || first_clus > self.max_clus {
            return Err(FsError::InvalidData);
        }
        if self.max_clus < 2 {
            return Err(FsError::InvalidData);
        }
        let mut list: Vec<u32> = vec![first_clus];
        let mut clus = first_clus;
        loop
            invariant
                self.wf(),
                self.fs_type != FatFsType::FAT12,
                img == old(disk).image(),
                disk.image() == img,
                list@.len() >= 1,
                list@.len() <= self.max_clus - 1,
                list@[0] == first_clus,
                clus == list@.last(),
                forall|i: int| 0 <= i < list@.len() ==> 2 <= #[trigger] list@[i] <= self.max_clus,
                forall|i: int|
                    0 <= i < list@.len() - 1 ==> #[trigger] list@[i + 1] == self.fat_entry(img, list@[i] as int),
            decreases self.max_clus - 1 - list@.len(),
        {
            let next = match self.get_next_clus(disk, clus) {
                Ok(v) => v,
                Err(_) => return Err(FsError::Io),
            };
            let end: u32 = if self.fs_type == FatFsType::FAT32 {
                0x0FFF_FFF8
            } else {
                0xFFF8
            };
            if next >= end {
                return Ok(list);
            }
            if next < 2 || next > self.max_clus || list.len() >= (self.max_clus - 1) as usize {
                return Err(FsError::InvalidData);
            }
            let ghost before = list@;
            list.push(next);
            assert(forall|i: int| 0 <= i < before.len() ==> list@[i] == before[i]);
            clus = next;
        }
    }

    /// Takes the lowest free cluster from 3 on, marks it as the end of a
    /// chain and, unless `is_first_clus`, links it after `last_clus`.
    pub fn alloc_clus<D: FileHandler>(&self, disk: &mut D, last_clus: u32, is_first_clus: bool) -> (r: Result<u32, FsError>)
        requires
            self.wf(),
        ensures
            self.variant() == FatFsType::FAT12 ==> r == Err::<u32, FsError>(FsError::Unsupported),
            self.variant() != FatFsType::FAT12 && !is_first_clus && (last_clus < 2 || last_clus
                > self.top_cluster()) ==> r == Err::<u32, FsError>(FsError::InvalidInput),
            r matches Ok(c) ==> {
                &&& self.lowest_free(old(disk).image(), c as int)
                &&& final(disk).image() == self.alloc_image(old(disk).image(), c as int, last_clus as int, is_first_clus)
            },
            r matches Err(e) ==> e == FsError::Unsupported || e == FsError::OutOfSpace || e == FsError::Io
                || (e == FsError::InvalidInput && !is_first_clus && (last_clus < 2 || last_clus > self.top_cluster())),
            r is Err ==> final(disk).image() == old(disk).image() || exists|c: int| #[trigger] self.lowest_free(old(disk).image(), c),
            r == Err::<u32, FsError>(FsError::OutOfSpace) ==> {
                &&& forall|j: int| 3 <= j <= self.top_cluster() ==> self.fat_entry(old(disk).image(), j) != 0
                &&& final(disk).image() == old(disk).image()
            },
    {
        if self.fs_type == FatFsType::FAT12 {
            return Err(FsError::Unsupported);
        }
        if !is_first_clus && (last_clus < 2 || last_clus > self.top_clus) {
            return Err(FsError::InvalidInput);
        }
        let ghost img = disk.image();
        let mut i: u32 = 3;
        loop
            invariant
                self.wf(),
                self.fs_type != FatFsType::FAT12,
                !is_first_clus ==> 2 <= last_clus <= self.top_clus,
                img == old(disk).image(),
                disk.image() == img,
                3 <= i,
                i <= self.top_clus + 1 || i == 3,
                forall|j: int| 3 <= j < i ==> self.fat_entry(img, j) != 0,
            ensures
                3 <= i <= self.top_clus,
                disk.image() == img,
                self.fat_entry(img, i as int) == 0,
                forall|j: int| 3 <= j < i ==> self.fat_entry(img, j) != 0,
            decreases self.top_clus + 1 - i,
        {
            if i > self.top_clus {
                return Err(FsError::OutOfSpace);
            }
            let v = match self.get_next_clus(disk, i) {
                Ok(v) => v,
                Err(_) => return Err(FsError::Io),
            };
            if v == 0 {
                break;
            }
            i = i + 1;
        }
        let found = i;
        let eoc: u32 = if self.fs_type == FatFsType::FAT32 {
            0x0FFF_FFFF
        } else {
            0xFFFF
        };
        assert(eoc == self.eoc_value());
        assert(self.lowest_free(img, found as int));
        match self.set_clus(disk, found, eoc) {
            Ok(_) => {},
            Err(_) => return Err(FsError::Io),
        }
        if !is_first_clus {
            match self.set_clus(disk, last_clus, found) {
                Ok(_) => {},
                Err(_) => return Err(FsError::Io),
            }
        }
        Ok(found)
    }

    /// Frees `clus`; when `last_clus` is above 2 it becomes the end of its chain.
    pub fn free_clus<D: FileHandler>(&self, disk: &mut D, last_clus: u32, clus: u32) -> (r: Result<(), FsError>)
        requires
            self.wf(),
        ensures
            clus <= 2 ==> r == Err::<(), FsError>(FsError::InvalidInput),
            self.variant() != FatFsType::FAT12 && (clus > self.top_cluster() || (last_clus > 2 && last_clus > self.top_cluster()))
                ==> r == Err::<(), FsError>(FsError::InvalidInput),
            r == Err::<(), FsError>(FsError::InvalidInput) ==> final(disk).image() == old(disk).image(),
            r is Ok ==> final(disk).image() == if last_clus > 2 {
                self.fat_set(self.fat_set(old(disk).image(), last_clus as int, self.eoc_value()), clus as int, 0)
            } else {
                self.fat_set(old(disk).image(), clus as int, 0)
            },
    {
        if clus <= 2 {
            return Err(FsError::InvalidInput);
        }
        if self.fs_type == FatFsType::FAT12 {
            return Err(FsError::Unsupported);
        }
        if clus > self.top_clus || (last_clus > 2 && last_clus > self.top_clus) {
            return Err(FsError::InvalidInput);
        }
        if last_clus > 2 {
            let eoc: u32 = if self.fs_type == FatFsType::FAT32 {
                0x0FFF_FFFF
            } else {
                0xFFFF
            };
            self.set_clus(disk, last_clus, eoc)?;
        }
        self.set_clus(disk, clus, 0)
    }
}

impl FatFs {
    /// Byte offset just past the last FAT copy.
    pub open spec fn fats_end(&self) -> int {
        self.fat_copy_pos(self.num_fats as int)
    }

    /// The value a cell holding `v` reads as.
    pub open spec fn cell_value(&self, v: u32) -> int {
        if self.fs_type == FatFsType::FAT32 {
            v as int % 0x1000_0000
        } else {
            v as int % 0x10000
        }
    }
}

/// Distinct cells of the FAT copies do not overlap, and each lies inside its copy.
proof fn lemma_cells_apart(fs: &FatFs, k1: int, c1: int, k2: int, c2: int)
    requires
        fs.wf(),
        fs.fs_type != FatFsType::FAT12,
        0 <= k1 < fs.num_fats,
        0 <= k2 < fs.num_fats,
        0 <= c1 <= fs.top_clus,
        0 <= c2 <= fs.top_clus,
        k1 != k2 || c1 != c2,
    ensures
        fs.cell_pos(k1, c1) + fs.cell_width() <= fs.cell_pos(k2, c2) || fs.cell_pos(k2, c2) + fs.cell_width() <= fs.cell_pos(k1, c1),
        0 <= fs.cell_pos(k1, c1),
        fs.cell_pos(k1, c1) + fs.cell_width() <= fs.fats_end(),
{
    let w = fs.cell_width();
    let bps = fs.bytes_per_sec as int;
    let f = fs.fat_size as int;
    let s = fs.fat_start as int;
    let n = fs.num_fats as int;
    let top = fs.top_clus as int;
    assert((top + 1) * w <= f * bps);
    assert forall|k: int, c: int| 0 <= k < n && 0 <= c <= top implies
        #[trigger] fs.cell_pos(k, c) == s * bps + k * (f * bps) + c * w
        && c * w + w <= f * bps && c * w >= 0 by {
        assert((s + k * f) * bps == s * bps + k * (f * bps)) by (nonlinear_arith);
        assert(c * w + w <= (top + 1) * w) by (nonlinear_arith)
            requires
                c <= top,
                w >= 0,
        ;
        assert(c * w >= 0) by (nonlinear_arith)
            requires
                c >= 0,
                w >= 0,
        ;
    }
    assert(fs.fats_end() == s * bps + n * (f * bps)) by (nonlinear_arith)
        requires
            fs.fats_end() == (s + n * f) * bps,
    ;
    assert(s * bps >= 0 && f * bps >= 0) by (nonlinear_arith)
        requires
            s >= 0,
            f >= 0,
            bps >= 0,
    ;
    if k1 == k2 {
        if c1 < c2 {
            assert(c1 * w + w <= c2 * w) by (nonlinear_arith)
                requires
                    c1 < c2,
                    w >= 0,
            ;
        } else {
            assert(c2 * w + w <= c1 * w) by (nonlinear_arith)
                requires
                    c2 < c1,
                    w >= 0,
            ;
        }
    } else if k1 < k2 {
        assert(k1 * (f * bps) + f * bps <= k2 * (f * bps)) by (nonlinear_arith)
            requires
                k1 < k2,
                f * bps >= 0,
        ;
    } else {
        assert(k2 * (f * bps) + f * bps <= k1 * (f * bps)) by (nonlinear_arith)
            requires
                k2 < k1,
                f * bps >= 0,
        ;
    }
    assert(k1 * (f * bps) + f * bps <= n * (f * bps)) by (nonlinear_arith)
        requires
            k1 < n,
            f * bps >= 0,
    ;
    assert(k1 * (f * bps) >= 0) by (nonlinear_arith)
        requires
            k1 >= 0,
            f * bps >= 0,
    ;
}

/// What a splice leaves at each byte.
proof fn lemma_splice_at(img: Seq<u8>, q: int, d: Seq<u8>, x: int)
    requires
        0 <= q,
        q + d.len() <= img.len(),
        0 <= x < img.len(),
    ensures
        splice(img, q, d).len() == img.len(),
        splice(img, q, d)[x] == if q <= x < q + d.len() {
            d[x - q]
        } else {
            img[x]
        },
{
}

/// The bytes of the cell of `j` in the FAT that is read, once the cell of
/// `c` is written in the first `k` copies: `v`'s bytes when that cell was
/// written, else as before.
proof fn lemma_written_cell(fs: &FatFs, img: Seq<u8>, c: int, v: u32, k: nat, j: int)
    requires
        fs.wf(),
        fs.fs_type != FatFsType::FAT12,
        2 <= c <= fs.top_clus,
        2 <= j <= fs.top_clus,
        k <= fs.written_copies().len(),
        img.len() >= fs.fats_end(),
    ensures
        fs.fat_written(img, c, v, k).len() == img.len(),
        ({
            let p = fs.cell_pos(fs.active_fat as int, j);
            let w = fs.cell_width();
            let touched = j == c && exists|i: int| 0 <= i < k && fs.written_copies()[i] == fs.active_fat;
            forall|x: int| p <= x < p + w ==> #[trigger] fs.fat_written(img, c, v, k)[x] == if touched {
                fs.cell_bytes(v)[x - p]
            } else {
                img[x]
            }
        }),
    decreases k,
{
    let p = fs.cell_pos(fs.active_fat as int, j);
    let w = fs.cell_width();
    lemma_cells_apart(fs, fs.active_fat as int, j, fs.active_fat as int, 0);
    if k > 0 {
        lemma_written_cell(fs, img, c, v, (k - 1) as nat, j);
        let prev = fs.fat_written(img, c, v, (k - 1) as nat);
        let kk = fs.written_copies()[k - 1];
        let q = fs.cell_pos(kk, c);
        assert(0 <= kk < fs.num_fats);
        lemma_cells_apart(fs, kk, c, kk, 0);
        if !(kk == fs.active_fat as int && j == c) {
            lemma_cells_apart(fs, kk, c, fs.active_fat as int, j);
        }
        assert(fs.cell_bytes(v).len() == w);
        let touched_prev = j == c && exists|i: int| 0 <= i < k - 1 && fs.written_copies()[i] == fs.active_fat;
        let touched = j == c && exists|i: int| 0 <= i < k && fs.written_copies()[i] == fs.active_fat;
        assert forall|x: int| p <= x < p + w implies #[trigger] fs.fat_written(img, c, v, k)[x] == if touched {
            fs.cell_bytes(v)[x - p]
        } else {
            img[x]
        } by {
            lemma_splice_at(prev, q, fs.cell_bytes(v), x);
            if kk == fs.active_fat as int && j == c {
                assert(touched);
            } else {
                assert(!(q <= x < q + w));
                if touched {
                    let i = choose|i: int| 0 <= i < k && fs.written_copies()[i] == fs.active_fat;
                    assert(i != k - 1);
                    assert(touched_prev);
                } else {
                    assert(!touched_prev);
                }
            }
        }
    }
}

impl FatFs {
    /// Writing the cell of `c` changes no other cell of the FAT that is read,
    /// and that cell then reads as the value written.
    pub proof fn lemma_fat_set_frame(&self, img: Seq<u8>, c: int, v: u32, j: int)
        requires
            self.wf(),
            self.variant() != FatFsType::FAT12,
            2 <= c <= self.top_cluster(),
            2 <= j <= self.top_cluster(),
            img.len() >= self.fats_end(),
        ensures
            self.fat_set(img, c, v).len() == img.len(),
            j != c ==> self.fat_entry(self.fat_set(img, c, v), j) == self.fat_entry(img, j),
            j == c ==> self.fat_entry(self.fat_set(img, c, v), j) == self.cell_value(v),
    {
        let n = self.written_copies().len();
        lemma_written_cell(self, img, c, v, n, j);
        let out = self.fat_set(img, c, v);
        let p = self.cell_pos(self.active_fat as int, j);
        let touched = j == c && exists|i: int| 0 <= i < n && self.written_copies()[i] == self.active_fat;
        if j == c {
            if self.mirrored {
                assert(self.written_copies()[self.active_fat as int] == self.active_fat);
            } else {
                assert(self.written_copies()[0] == self.active_fat);
            }
            assert(touched);
            assert(out[p] == self.cell_bytes(v)[0]);
            assert(out[p + 1] == self.cell_bytes(v)[1]);
            if self.fs_type == FatFsType::FAT32 {
                assert(out[p + 2] == self.cell_bytes(v)[2]);
                assert(out[p + 3] == self.cell_bytes(v)[3]);
                lemma_le32_bytes(v);
            } else {
                lemma_le16_bytes((v % 0x10000) as u16);
            }
        } else {
            assert(!touched);
            assert(out[p] == img[p]);
            assert(out[p + 1] == img[p + 1]);
            if self.fs_type == FatFsType::FAT32 {
                assert(out[p + 2] == img[p + 2]);
                assert(out[p + 3] == img[p + 3]);
            }
        }
    }

    /// Two allocations in a row return increasing cluster numbers, and neither
    /// was in use when it was taken.
    pub proof fn lemma_alloc_increasing(&self, img: Seq<u8>, c1: int, last: int, is_first: bool, c2: int)
        requires
            self.wf(),
            self.variant() != FatFsType::FAT12,
            img.len() >= self.fats_end(),
            !is_first ==> 2 <= last <= self.top_cluster(),
            self.lowest_free(img, c1),
            self.lowest_free(self.alloc_image(img, c1, last, is_first), c2),
        ensures
            self.fat_entry(img, c1) == 0,
            self.fat_entry(self.alloc_image(img, c1, last, is_first), c2) == 0,
            c1 < c2,
    {
        let marked = self.fat_set(img, c1, self.eoc_value());
        let out = self.alloc_image(img, c1, last, is_first);
        assert forall|j: int| 3 <= j <= c1 implies self.fat_entry(out, j) != 0 by {
            self.lemma_fat_set_frame(img, c1, self.eoc_value(), j);
            if !is_first {
                self.lemma_fat_set_frame(marked, last, c1 as u32, j);
            }
        }
    }

    /// An allocation right after cluster `f` was freed (with no chain end to
    /// mark) returns `f` exactly when no lower cluster from 3 on is free.
    pub proof fn lemma_free_then_alloc(&self, img: Seq<u8>, f: int, c: int)
        requires
            self.wf(),
            self.variant() != FatFsType::FAT12,
            img.len() >= self.fats_end(),
            3 <= f <= self.top_cluster(),
            self.lowest_free(self.fat_set(img, f, 0), c),
        ensures
            c == f <==> forall|j: int| 3 <= j < f ==> self.fat_entry(self.fat_set(img, f, 0), j) != 0,
    {
        self.lemma_fat_set_frame(img, f, 0, f);
    }
}

} // verus!
