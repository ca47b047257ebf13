use vstd::prelude::*;

use crate::bytes::{le32, read_le32, splice};
use crate::utils::{ceil_div, SECTOR_SIZE};
use crate::error::FsError;
use crate::fat::dir::{copy_vec, names_equal, names_match, slice_bytes};
use crate::fat::entry::{short_entry_of, ShortDir, ATTR_ARCHIVE, ATTR_READ_ONLY};
use crate::fat::long_name::{build_long_entries, long_entries};
use crate::fat::ops::{all_aliases_taken, chars_of, chosen_alias, lookup_error, path_components, split_path, views, FileNameType};
use crate::fat::dir::scan;
use crate::fat::long_name::{all_chksums, valid_long_name};
use crate::fat::short_name::{chksum, chksum_of, nt_res_of, short_field, valid_short_name, ShortName};
use crate::fat::time::{
    pack_date, pack_time, date_in_range, time_in_range, to_fat32_date, to_fat32_time, to_fat32_time_tenth, FatDate,
    FatTime,
};
use crate::fat::{node_ok, DirInfo, FatFs, FatFsType, BPB};
use crate::fs_ops::Request;
use crate::host_ops::FileHandler;
use crate::vfs::{FileType, PtPosition};

verus! {

/// Whether two nodes agree on everything but their children and cluster chain.
pub open spec fn same_node_head(a: DirInfo, b: DirInfo) -> bool {
    &&& a.name@ == b.name@
    &&& a.ftype == b.ftype
    &&& a.parent == b.parent
    &&& a.idx == b.idx
    &&& a.offset == b.offset
}

/// The attribute byte for a new entry: read-only unless the permission bits
/// make it writable by all (`0o333` all set); directories add DIRECTORY, and
/// every entry ARCHIVE.
pub open spec fn attribute_of(ftype: FileType, attr: u16) -> u8 {
    ((if attr & 0o333 == 0o333 { 0int } else { ATTR_READ_ONLY as int }) + (if ftype == FileType::Dir {
        0x30int
    } else {
        ATTR_ARCHIVE as int
    })) as u8
}

pub fn attribute_byte(ftype: FileType, attr: u16) -> (r: u8)
    ensures
        r == attribute_of(ftype, attr),
{
    let ro: u8 = if attr & 0o333 == 0o333 {
        0
    } else {
        ATTR_READ_ONLY
    };
    let kind: u8 = match ftype {
        FileType::Dir => 0x30,
        _ => ATTR_ARCHIVE,
    };
    ro + kind
}

/// The errors that taking a directory slot can end in.
pub open spec fn slot_error(e: FsError) -> bool {
    e == FsError::InvalidData || e == FsError::Io || e == FsError::Unsupported || e == FsError::OutOfSpace
}

/// `n` zero bytes.
fn zeroed(n: usize) -> (r: Vec<u8>)
    ensures
        r@ == Seq::new(n as nat, |i: int| 0u8),
{
    let mut v: Vec<u8> = Vec::new();
    let mut i: usize = 0;
    while i < n
        invariant
            i <= n,
            v@ == Seq::new(i as nat, |k: int| 0u8),
        decreases n - i,
    {
        v.push(0u8);
        i = i + 1;
        assert(v@ =~= Seq::new(i as nat, |k: int| 0u8));
    }
    v
}

impl FatFs {
    /// Replaces the children and the cluster chain of node `idx`.
    fn set_node(&mut self, idx: usize, children: Vec<usize>, clus_list: Vec<u32>)
        requires
            old(self).wf(),
            idx < old(self).nodes().len(),
            forall|j: int| 0 <= j < children@.len() ==> #[trigger] children@[j] < old(self).nodes().len(),
        ensures
            final(self).wf(),
            final(self).same_geometry(old(self)),
            final(self).nodes().len() == old(self).nodes().len(),
            forall|i: int| 0 <= i < old(self).nodes().len() && i != idx ==> final(self).nodes()[i] == old(self).nodes()[i],
            same_node_head(final(self).nodes()[idx as int], old(self).nodes()[idx as int]),
            final(self).nodes()[idx as int].children@ == children@,
            final(self).nodes()[idx as int].clus_list@ == clus_list@,
    {
        let nd = {
            let d = self.cache.read(idx);
            DirInfo {
                name: copy_vec(&d.name),
                ftype: d.ftype,
                parent: d.parent,
                idx: d.idx,
                children,
                offset: d.offset,
                clus_list,
            }
        };
        let ghost old_nodes = self.cache.slots();
        self.cache.update(idx, nd);
        proof {
            let n = self.cache.slots().len() as int;
            assert forall|i: int| 0 <= i < n implies node_ok(#[trigger] self.cache.slots()[i], n) by {
                assert(node_ok(old_nodes[i], n));
            }
        }
    }

    /// Finds the first free slot (first byte 0) of the directory at
    /// `parent_idx`; when there is none, links a new zeroed cluster to its
    /// chain and takes that cluster's first slot. Returns the cluster, the slot
    /// within it, and the slot within the directory stream.
    #[verifier::loop_isolation(false)]
    pub fn new_dir_entry<D: FileHandler>(&mut self, disk: &mut D, parent_idx: usize) -> (r: Result<(u32, usize, u32), FsError>)
        requires
            old(self).wf(),
            parent_idx < old(self).nodes().len(),
        ensures
            final(self).wf(),
            final(self).same_geometry(old(self)),
            final(self).nodes().len() == old(self).nodes().len(),
            forall|i: int| 0 <= i < old(self).nodes().len() && i != parent_idx ==> final(self).nodes()[i] == old(self).nodes()[i],
            same_node_head(final(self).nodes()[parent_idx as int], old(self).nodes()[parent_idx as int]),
            final(self).nodes()[parent_idx as int].children@ == old(self).nodes()[parent_idx as int].children@,
            old(self).nodes()[parent_idx as int].clus_list@.len() == 0 || old(self).nodes()[parent_idx as int].clus_list@.len() > 0xFFF
                ==> r == Err::<(u32, usize, u32), FsError>(FsError::InvalidData),
            r matches Err(e) ==> slot_error(e),
            ({
                let ch = final(self).nodes()[parent_idx as int].clus_list@;
                let ch0 = old(self).nodes()[parent_idx as int].clus_list@;
                ch.len() >= ch0.len() && ch.subrange(0, ch0.len() as int) == ch0
            }),
            r matches Ok((c, s, g)) ==> {
                let ch = final(self).nodes()[parent_idx as int].clus_list@;
                let old_ch = old(self).nodes()[parent_idx as int].clus_list@;
                let epc = old(self).bytes_per_clus as int / 32;
                let d = old(self).stream_of(old(disk).image(), old_ch);
                &&& (g as int) / epc < ch.len()
                &&& c == ch[(g as int) / epc]
                &&& s == (g as int) % epc
                &&& 32 * s + 32 <= old(self).bytes_per_clus
                &&& (ch == old_ch ==> {
                    &&& 32 * g + 32 <= d.len()
                    &&& d[32 * g] == 0
                    &&& forall|j: int| 0 <= j < g ==> #[trigger] d[32 * j] != 0
                    &&& final(disk).image() == old(disk).image()
                })
                &&& (ch != old_ch ==> {
                    &&& ch == old_ch.push(c)
                    &&& g == old_ch.len() * epc
                    &&& s == 0
                    &&& forall|j: int| 0 <= j < d.len() / 32 ==> #[trigger] d[32 * j] != 0
                    &&& old(self).lowest_free(old(disk).image(), c as int)
                    &&& final(disk).image() == splice(
                        old(self).alloc_image(old(disk).image(), c as int, old_ch.last() as int, false),
                        old(self).cluster_pos(c as int),
                        Seq::new(old(self).bytes_per_clus as nat, |i: int| 0u8),
                    )
                })
            },
    {
        let chain = copy_vec(&self.cache.read(parent_idx).clus_list);
        if chain.len() == 0 || chain.len() > 0xFFF {
            return Err(FsError::InvalidData);
        }
        let ghost img = disk.image();
        let d = self.read_dir_stream(disk, &chain)?;
        let epc = (self.bytes_per_clus / 32) as usize;
        assert(d@.len() <= 0x1000 * 0x80000) by (nonlinear_arith)
            requires
                d@.len() == chain@.len() * self.bytes_per_clus,
                chain@.len() <= 0x1000,
                self.bytes_per_clus <= 0x80000,
        ;
        let n = d.len() / 32;
        assert(32 * n <= d.len());
        let mut g: usize = 0;
        while g < n
            invariant
                g <= n,
                n == d@.len() / 32,
                32 * n <= d.len(),
                forall|j: int| 0 <= j < g ==> #[trigger] d@[32 * j] != 0,
            decreases n - g,
        {
            if d[32 * g] == 0 {
                assert(g / epc < chain@.len()) by (nonlinear_arith)
                    requires
                        g < n,
                        n == d@.len() / 32,
                        d@.len() == chain@.len() * self.bytes_per_clus,
                        epc == self.bytes_per_clus / 32,
                        self.bytes_per_clus % 32 == 0,
                        self.bytes_per_clus >= 512,
                ;
                assert(32 * (g % epc) + 32 <= self.bytes_per_clus) by (nonlinear_arith)
                    requires
                        epc == self.bytes_per_clus / 32,
                        self.bytes_per_clus % 32 == 0,
                        epc > 0,
                ;
                return Ok((chain[g / epc], g % epc, g as u32));
            }
            g = g + 1;
        }
        let last = chain[chain.len() - 1];
        if last < 2 || last > self.top_clus {
            return Err(FsError::InvalidData);
        }
        let c = self.alloc_clus(disk, last, false)?;
        let pos = match self.to_byte_cnt(c) {
            Ok(p) => p,
            Err(_) => return Err(FsError::InvalidData),
        };
        let zeros = zeroed(self.bytes_per_clus as usize);
        disk.seek(pos);
        match disk.write(&zeros) {
            Ok(_) => {},
            Err(_) => return Err(FsError::Io),
        }
        let mut grown = copy_vec(&chain);
        grown.push(c);
        let children = copy_vec(&self.cache.read(parent_idx).children);
        proof {
            let nd = self.cache.slots()[parent_idx as int];
            assert(node_ok(nd, self.cache.slots().len() as int));
        }
        self.set_node(parent_idx, children, grown);
        assert(self.nodes()[parent_idx as int].clus_list@.subrange(0, chain@.len() as int) =~= chain@);
        assert(chain@.len() * epc < 0x1_0000_0000) by (nonlinear_arith)
            requires
                chain@.len() <= 0x1000,
                epc <= 0x4000,
        ;
        let g2 = chain.len() * epc;
        assert(g2 / epc == chain@.len() && g2 % epc == 0) by (nonlinear_arith)
            requires
                g2 == chain@.len() * epc,
                epc > 0,
        ;
        assert(self.cache.slots()[parent_idx as int].clus_list@ != chain@) by {
            assert(self.cache.slots()[parent_idx as int].clus_list@.len() != chain@.len());
        }
        Ok((c, 0, g2 as u32))
    }

    /// The pool index reached by walking the first `count` components from
    /// the root: a child already cached under that name, else a lookup on disk.
    pub fn get_parent_dir<D: FileHandler>(&mut self, disk: &mut D, names: &Vec<Vec<char>>, count: usize) -> (r: Result<usize, FsError>)
        requires
            old(self).wf(),
            count <= names@.len(),
        ensures
            final(self).wf(),
            final(self).same_geometry(old(self)),
            final(disk).image() == old(disk).image(),
            final(self).nodes().len() >= old(self).nodes().len(),
            r matches Ok(idx) ==> idx < final(self).nodes().len(),
            count == 0 ==> r == Ok::<usize, FsError>(old(self).root),
            r matches Err(e) ==> lookup_error(e),
            r == Err::<usize, FsError>(FsError::NotFound) ==> exists|k: int, j: int|
                0 <= k < count && 0 <= j < final(self).nodes().len() && #[trigger] scan(
                    final(self).stream_of(old(disk).image(), final(self).nodes()[j].clus_list@),
                    names@[k]@,
                ) == -1,
            r matches Ok(idx) ==> count > 0 ==> names_match(final(self).nodes()[idx as int].name@, names@[count - 1]@),
            r matches Ok(idx) ==> count > 0 ==> exists|p: int|
                0 <= p < final(self).nodes().len() && #[trigger] final(self).nodes()[p].children@.contains(idx)
                    && (count == 1 ==> p == old(self).root),
    {
        let mut idx = self.root;
        let mut i: usize = 0;
        let ghost mut prev: int = 0;
        while i < count
            invariant
                self.wf(),
                self.same_geometry(old(self)),
                disk.image() == old(disk).image(),
                self.nodes().len() >= old(self).nodes().len(),
                i <= count <= names@.len(),
                idx < self.nodes().len(),
                i == 0 ==> idx == old(self).root_index(),
                i > 0 ==> names_match(self.nodes()[idx as int].name@, names@[i - 1]@),
                i > 0 ==> 0 <= prev < self.nodes().len() && self.nodes()[prev].children@.contains(idx),
                i == 1 ==> prev == old(self).root,
            decreases count - i,
        {
            let ghost cur = idx as int;
            let ghost root0 = self.root;
            let mut found: Option<usize> = None;
            {
                let children = &self.cache.read(idx).children;
                let mut j: usize = 0;
                while j < children.len()
                    invariant
                        self.wf(),
                        idx < self.nodes().len(),
                        children@ == self.nodes()[idx as int].children@,
                        i < names@.len(),
                        j <= children@.len(),
                        found matches Some(x) ==> x < self.nodes().len() && names_match(self.nodes()[x as int].name@, names@[i as int]@)
                            && children@.contains(x),
                    decreases children@.len() - j,
                {
                    let k = children[j];
                    proof {
                        assert(node_ok(self.nodes()[idx as int], self.nodes().len() as int));
                    }
                    if names_equal(&self.cache.read(k).name, &names[i]) {
                        found = Some(k);
                        assert(children@[j as int] == k);
                    }
                    j = j + 1;
                }
            }
            idx = match found {
                Some(k) => k,
                None => match {
                    let ghost before = *self;
                    let res = self.search_in_dir(disk, idx, &names[i]);
                    proof {
                        if res == Err::<usize, FsError>(FsError::NotFound) {
                            self.lemma_stream_same_layout(&before, old(disk).image(), self.nodes()[idx as int].clus_list@);
                            assert(scan(self.stream_of(old(disk).image(), self.nodes()[idx as int].clus_list@), names@[i as int]@) == -1);
                        }
                    }
                    res
                } {
                    Ok(k) => {
                                assert(self.nodes()[cur].children@.last() == k);
                                assert(self.nodes()[cur].children@.contains(k));
                                k
                            },
                    Err(e) => {
                        proof {
                            if e == FsError::NotFound {
                                let kk = i as int;
                                let jj = idx as int;
                                assert(scan(self.stream_of(old(disk).image(), self.nodes()[jj].clus_list@), names@[kk]@) == -1);
                            }
                        }
                        return Err(e);
                    },
                },
            };
            proof {
                prev = cur;
            }
            i = i + 1;
        }
        Ok(idx)
    }
}

/// Whether `blocks` are the entries written for `name`: its long entries
/// (for a long name) and then its short entry, named by `f`.
pub open spec fn entries_for(blocks: Seq<u8>, name: Seq<char>, f: Seq<u8>, short: Seq<u8>) -> bool {
    if valid_short_name(name) {
        blocks == short
    } else {
        blocks == long_entries(name, chksum_of(f)) + short
    }
}

/// The name field of the last 32-byte entry of `blocks`.
pub open spec fn last_field(blocks: Seq<u8>) -> Seq<u8> {
    blocks.subrange(blocks.len() - 32, blocks.len() - 21)
}

impl FatFs {
    /// The entries that name a new file `name` in the directory at
    /// `parent_idx`, and the node that stands for it.
    pub fn create_file_block<D: FileHandler>(
        &self,
        disk: &mut D,
        parent_idx: usize,
        name: &Vec<char>,
        ftype: FileType,
        attribute: u8,
        ctime_tenth: u8,
        ctime: u16,
        cdate: u16,
        lacc_date: u16,
        first_clus: u32,
        wtime: u16,
        wdate: u16,
        file_size: u32,
    ) -> (r: Result<(DirInfo, Vec<u8>), FsError>)
        requires
            self.wf(),
            parent_idx < self.nodes().len(),
        ensures
            final(disk).image() == old(disk).image(),
            r matches Ok((dir, blocks)) ==> {
                let f = last_field(blocks@);
                &&& blocks@.len() >= 32
                &&& blocks@.len() % 32 == 0
                &&& (valid_short_name(name@) ==> f == short_field(name@))
                &&& (!valid_short_name(name@) ==> chosen_alias(
                    self.stream_of(old(disk).image(), self.nodes()[parent_idx as int].clus_list@),
                    name@,
                    f,
                ))
                &&& entries_for(blocks@, name@, f, short_entry_of(f, attribute, nt_res_of(name@),
                    ctime_tenth, ctime, cdate, lacc_date, first_clus, wtime, wdate, file_size))
                &&& dir.name@ == name@
                &&& dir.ftype == ftype
                &&& dir.parent == parent_idx
                &&& dir.children@.len() == 0
                &&& (!valid_short_name(name@) ==> all_chksums(
                    blocks@.subrange(0, blocks@.len() - 32),
                    chksum_of(last_field(blocks@)),
                ))
            },
            !valid_short_name(name@) && !(self.variant() == FatFsType::FAT32 && crate::fat::long_name::valid_long_name(name@))
                ==> r == Err::<(DirInfo, Vec<u8>), FsError>(FsError::InvalidInput),
            valid_short_name(name@) ==> r is Ok,
            r matches Err(e) ==> (e == FsError::InvalidInput && !valid_short_name(name@) && !(self.variant()
                == FatFsType::FAT32 && valid_long_name(name@))) || e == FsError::InvalidData || e == FsError::Io
                || e == FsError::AlreadyExists,
            r == Err::<(DirInfo, Vec<u8>), FsError>(FsError::AlreadyExists) ==> all_aliases_taken(
                self.stream_of(old(disk).image(), self.nodes()[parent_idx as int].clus_list@),
                name@,
            ),
    {
        let name_type = match self.check_name(name) {
            Ok(t) => t,
            Err(e) => return Err(e),
        };
        let short_name = match name_type {
            FileNameType::LongName => self.long_name2short_name(disk, parent_idx, name)?,
            FileNameType::ShortName => match ShortName::new(name) {
                Ok(s) => s,
                Err(e) => return Err(e),
            },
        };
        let ghost f = short_name.field@;
        let mut blocks: Vec<u8> = Vec::new();
        if name_type == FileNameType::LongName {
            blocks = build_long_entries(name, chksum(&short_name.field));
        }
        let short_dir = ShortDir::new(
            short_name,
            name,
            attribute,
            ctime_tenth,
            ctime,
            cdate,
            lacc_date,
            first_clus,
            wtime,
            wdate,
            file_size,
        );
        let sb = short_dir.to_bytes();
        let ghost lb = blocks@;
        crate::fat::dir::append_bytes(&mut blocks, &sb);
        assert(sb@ == short_entry_of(f, attribute, nt_res_of(name@), ctime_tenth, ctime, cdate,
            lacc_date, first_clus, wtime, wdate, file_size));
        assert(last_field(blocks@) =~= f);
        proof {
            if name_type == FileNameType::ShortName {
                assert(lb.len() == 0);
                assert(blocks@ =~= sb@);
            } else {
                crate::fat::long_name::lemma_long_entries_shape(name@, chksum_of(f));
                assert(blocks@.subrange(0, blocks@.len() - 32) =~= lb);
            }
        }
        let dir = DirInfo {
            name: copy_vec(name),
            ftype,
            parent: parent_idx,
            idx: 0,
            children: Vec::new(),
            offset: 0,
            clus_list: Vec::new(),
        };
        Ok((dir, blocks))
    }
}

impl FatFs {
    /// Writes 32-byte entries into consecutive free slots of the directory at
    /// `parent_idx`; returns the stream slot of the last one.
    pub fn write_entries<D: FileHandler>(&mut self, disk: &mut D, parent_idx: usize, blocks: &Vec<u8>) -> (r: Result<u32, FsError>)
        requires
            old(self).wf(),
            parent_idx < old(self).nodes().len(),
            blocks@.len() >= 32,
            blocks@.len() % 32 == 0,
        ensures
            final(self).wf(),
            final(self).same_geometry(old(self)),
            final(self).nodes().len() == old(self).nodes().len(),
            forall|i: int| 0 <= i < old(self).nodes().len() && i != parent_idx ==> final(self).nodes()[i] == old(self).nodes()[i],
            same_node_head(final(self).nodes()[parent_idx as int], old(self).nodes()[parent_idx as int]),
            final(self).nodes()[parent_idx as int].children@ == old(self).nodes()[parent_idx as int].children@,
            r matches Err(e) ==> slot_error(e),
            ({
                let ch = final(self).nodes()[parent_idx as int].clus_list@;
                let ch0 = old(self).nodes()[parent_idx as int].clus_list@;
                ch.len() >= ch0.len() && ch.subrange(0, ch0.len() as int) == ch0
            }),
            r matches Ok(g) ==> {
                let ch = final(self).nodes()[parent_idx as int].clus_list@;
                let epc = final(self).bytes_per_clus as int / 32;
                let pos = final(self).slot_pos(ch[(g as int) / epc] as int, (g as int) % epc);
                &&& (g as int) / epc < ch.len()
                &&& final(disk).image().subrange(pos, pos + 32) == blocks@.subrange(blocks@.len() - 32, blocks@.len() as int)
            },
    {
        let m = blocks.len() / 32;
        assert(blocks.len() == 32 * m);
        let mut j: usize = 0;
        let mut last_g: u32 = 0;
        let ghost mut last_c: u32 = 0;
        let ghost mut last_s: int = 0;
        while j < m
            invariant
                self.wf(),
                self.same_geometry(old(self)),
                parent_idx < self.nodes().len(),
                self.nodes().len() == old(self).nodes().len(),
                forall|i: int| 0 <= i < old(self).nodes().len() && i != parent_idx ==> self.nodes()[i] == old(self).nodes()[i],
                same_node_head(self.nodes()[parent_idx as int], old(self).nodes()[parent_idx as int]),
                self.nodes()[parent_idx as int].children@ == old(self).nodes()[parent_idx as int].children@,
                self.nodes()[parent_idx as int].clus_list@.len() >= old(self).nodes()[parent_idx as int].clus_list@.len(),
                self.nodes()[parent_idx as int].clus_list@.subrange(0, old(self).nodes()[parent_idx as int].clus_list@.len() as int)
                    == old(self).nodes()[parent_idx as int].clus_list@,
                blocks.len() == 32 * m,
                m >= 1,
                j <= m,
                j > 0 ==> {
                    let ch = self.nodes()[parent_idx as int].clus_list@;
                    let epc = self.bytes_per_clus as int / 32;
                    &&& (last_g as int) / epc < ch.len()
                    &&& last_c == ch[(last_g as int) / epc]
                    &&& last_s == (last_g as int) % epc
                    &&& disk.image().subrange(self.slot_pos(last_c as int, last_s), self.slot_pos(last_c as int, last_s) + 32)
                        == blocks@.subrange(32 * (j - 1), 32 * j)
                },
            decreases m - j,
        {
            let ghost ch_before = self.nodes()[parent_idx as int].clus_list@;
            let (c, sl, g) = self.new_dir_entry(disk, parent_idx)?;
            proof {
                let ch0 = old(self).nodes()[parent_idx as int].clus_list@;
                let ch = self.nodes()[parent_idx as int].clus_list@;
                if ch != ch_before {
                    assert(ch.subrange(0, ch0.len() as int) =~= ch_before.subrange(0, ch0.len() as int));
                }
            }
            let block = slice_bytes(blocks, 32 * j, 32 * j + 32);
            if c < 2 {
                return Err(FsError::InvalidData);
            }
            match self.write_dir_entry(disk, c, sl, &block) {
                Ok(_) => {},
                Err(_) => return Err(FsError::Io),
            }
            proof {
                let p = self.slot_pos(c as int, sl as int);
                assert(disk.image().subrange(p, p + 32) =~= block@);
                last_c = c;
                last_s = sl as int;
            }
            last_g = g;
            j = j + 1;
        }
        assert(blocks@.subrange(32 * (m - 1), 32 * m) =~= blocks@.subrange(blocks@.len() - 32, blocks@.len() as int));
        Ok(last_g)
    }

    /// Byte offset of the short entry of a node: slot `offset` of its
    /// parent's directory stream.
    pub open spec fn entry_pos(&self, node: DirInfo) -> int {
        let p = self.nodes()[node.parent as int];
        let epc = self.bytes_per_clus as int / 32;
        self.slot_pos(p.clus_list@[node.offset as int / epc] as int, node.offset as int % epc)
    }

    /// Creates a file or directory at `path`: takes its first cluster, writes
    /// its entries into the parent directory and adds a node for it.
    #[verifier::spinoff_prover]
    #[verifier::rlimit(100)]
    pub fn create_file<D: FileHandler>(
        &mut self,
        disk: &mut D,
        path: &str,
        ftype: FileType,
        attr: u16,
        create_date: &FatDate,
        create_time: &FatTime,
        write_date: &FatDate,
        write_time: &FatTime,
        last_acc_date: &FatDate,
        file_size: u32,
    ) -> (r: Result<Request, FsError>)
        requires
            old(self).wf(),
            date_in_range(*create_date),
            date_in_range(*write_date),
            date_in_range(*last_acc_date),
            time_in_range(*create_time),
            time_in_range(*write_time),
        ensures
            final(self).wf(),
            final(self).same_geometry(old(self)),
            path_components(path@).len() == 0 ==> r == Err::<Request, FsError>(FsError::InvalidInput),
            r == Err::<Request, FsError>(FsError::InvalidInput) ==> path_components(path@).len() == 0 || ({
                let leaf = path_components(path@).last();
                !valid_short_name(leaf) && !(old(self).variant() == FatFsType::FAT32 && valid_long_name(leaf))
            }),
            r == Err::<Request, FsError>(FsError::AlreadyExists) ==> path_components(path@).len() > 0 && exists|p: int|
                0 <= p < final(self).nodes().len() && #[trigger] all_aliases_taken(
                    final(self).stream_of(old(disk).image(), final(self).nodes()[p].clus_list@),
                    path_components(path@).last(),
                ),
            r matches Ok(req) ==> {
                let node = final(self).nodes()[req.idx as int];
                let comps = path_components(path@);
                let e = final(disk).image().subrange(final(self).entry_pos(node), final(self).entry_pos(node) + 32);
                &&& req.offset == 0
                &&& req.idx < final(self).nodes().len()
                &&& comps.len() > 0
                &&& node.name@ == comps.last()
                &&& node.ftype == ftype
                &&& node.parent < final(self).nodes().len()
                &&& node.clus_list@.len() == 1
                &&& old(self).lowest_free(old(disk).image(), node.clus_list@[0] as int)
                &&& node.offset as int / (final(self).bytes_per_clus as int / 32) < final(self).nodes()[node.parent as int].clus_list@.len()
                &&& final(self).nodes()[node.parent as int].children@.last() == req.idx
                &&& (valid_short_name(comps.last()) ==> e.subrange(0, 11) == short_field(comps.last()))
                &&& (!valid_short_name(comps.last()) ==> exists|ch: Seq<u32>|
                    ch.len() <= final(self).nodes()[node.parent as int].clus_list@.len()
                    && final(self).nodes()[node.parent as int].clus_list@.subrange(0, ch.len() as int) == ch
                    && #[trigger] chosen_alias(old(self).stream_of(old(disk).image(), ch), comps.last(), e.subrange(0, 11))
                    && !all_aliases_taken(old(self).stream_of(old(disk).image(), ch), comps.last()))
                &&& e == short_entry_of(e.subrange(0, 11), attribute_of(ftype, attr), nt_res_of(comps.last()),
                    (create_time.nanosecond / 100_000_000) as u8, pack_time(*create_time) as u16,
                    pack_date(*create_date) as u16, pack_date(*last_acc_date) as u16, node.clus_list@[0],
                    pack_time(*write_time) as u16, pack_date(*write_date) as u16, file_size)
            },
    {
        let cdate = to_fat32_date(create_date);
        let ctime = to_fat32_time(create_time);
        let wdate = to_fat32_date(write_date);
        let wtime = to_fat32_time(write_time);
        let lacc_date = to_fat32_date(last_acc_date);
        let ctime_tenth = to_fat32_time_tenth(create_time);
        let attribute = attribute_byte(ftype, attr);
        let chars = chars_of(path);
        let names = split_path(&chars);
        assert(views(names@).len() == names@.len());
        if names.len() == 0 {
            return Err(FsError::InvalidInput);
        }
        let parent_idx = self.get_parent_dir(disk, &names, names.len() - 1)?;
        let leaf = &names[names.len() - 1];
        assert(leaf@ == path_components(path@).last());
        let ghost pchain = self.nodes()[parent_idx as int].clus_list@;
        let (dir, blocks, first_clus) = match self.prepare_entries(
            disk, parent_idx, leaf, ftype, attribute, ctime_tenth, ctime, cdate, lacc_date, wtime, wdate, file_size,
        ) {
            Ok(x) => x,
            Err(e) => {
                proof {
                    if e == FsError::InvalidInput {
                        assert(self.fs_type == old(self).fs_type);
                    }
                }
                return Err(e);
            },
        };
        proof {
            self.lemma_lowest_free_same_layout(&*old(self), old(disk).image(), first_clus as int);
            if !valid_short_name(leaf@) {
                self.lemma_stream_same_layout(&*old(self), old(disk).image(), pchain);
            }
        }
        if self.cache.len() >= 0xFFFF_FFFE {
            return Err(FsError::OutOfSpace);
        }
        let last_g = self.write_entries(disk, parent_idx, &blocks)?;
        let ghost img_final = disk.image();
        let node = DirInfo {
            name: dir.name,
            ftype: dir.ftype,
            parent: parent_idx,
            idx: 0,
            children: Vec::new(),
            offset: last_g,
            clus_list: vec![first_clus],
        };
        let ghost pre_nodes = self.cache.slots();
        let idx = self.cache.append(node);
        proof {
            let n = self.cache.slots().len() as int;
            assert forall|i: int| 0 <= i < n implies node_ok(#[trigger] self.cache.slots()[i], n) by {
                if i < n - 1 {
                    assert(self.cache.slots()[i] == pre_nodes[i]);
                    assert(node_ok(pre_nodes[i], n - 1));
                }
            }
        }
        let mut children = copy_vec(&self.cache.read(parent_idx).children);
        proof {
            assert(node_ok(self.cache.slots()[parent_idx as int], self.cache.slots().len() as int));
        }
        children.push(idx);
        let clus = copy_vec(&self.cache.read(parent_idx).clus_list);
        self.set_node(parent_idx, children, clus);
        proof {
            if !valid_short_name(leaf@) {
                let fch = self.nodes()[parent_idx as int].clus_list@;
                assert(fch.subrange(0, pchain.len() as int) == pchain);
                assert(chosen_alias(old(self).stream_of(old(disk).image(), pchain), leaf@, last_field(blocks@)));
                let node = self.nodes()[idx as int];
                let e = disk.image().subrange(self.entry_pos(node), self.entry_pos(node) + 32);
                assert(e == blocks@.subrange(blocks@.len() - 32, blocks@.len() as int));
                assert(e.subrange(0, 11) =~= last_field(blocks@));
                assert(leaf@ == path_components(path@).last());
                crate::fat::ops::lemma_chosen_alias_not_all_taken(old(self).stream_of(old(disk).image(), pchain), leaf@, last_field(blocks@));
            }
        }
        Ok(Request { idx, offset: 0 })
    }

    /// Opens the file at `path`.
    pub fn open<D: FileHandler>(&mut self, disk: &mut D, path: &str) -> (r: Result<Request, FsError>)
        requires
            old(self).wf(),
        ensures
            final(self).wf(),
            final(self).same_geometry(old(self)),
            final(disk).image() == old(disk).image(),
            path_components(path@).len() == 0 ==> r is Ok,
            r matches Err(e) ==> lookup_error(e),
            r == Err::<Request, FsError>(FsError::NotFound) ==> exists|k: int, j: int|
                0 <= k < path_components(path@).len() && 0 <= j < final(self).nodes().len() && #[trigger] scan(
                    final(self).stream_of(old(disk).image(), final(self).nodes()[j].clus_list@),
                    path_components(path@)[k],
                ) == -1,
            r matches Ok(req) ==> {
                let comps = path_components(path@);
                &&& req.offset == 0
                &&& req.idx < final(self).nodes().len()
                &&& (comps.len() == 0 ==> req.idx == old(self).root_index())
                &&& (comps.len() > 0 ==> names_match(final(self).nodes()[req.idx as int].name@, comps.last()))
                &&& (comps.len() > 0 ==> exists|p: int|
                    0 <= p < final(self).nodes().len() && #[trigger] final(self).nodes()[p].children@.contains(req.idx)
                        && (comps.len() == 1 ==> p == old(self).root))
            },
    {
        let chars = chars_of(path);
        let names = split_path(&chars);
        assert(views(names@).len() == names@.len());
        assert(forall|k: int| 0 <= k < names@.len() ==> #[trigger] views(names@)[k] == names@[k]@);
        match self.get_parent_dir(disk, &names, names.len()) {
            Ok(idx) => Ok(Request { idx, offset: 0 }),
            Err(e) => {
                proof {
                    if e == FsError::NotFound {
                        let (k, j) = choose|k: int, j: int|
                            0 <= k < names@.len() && 0 <= j < self.nodes().len() && #[trigger] scan(
                                self.stream_of(old(disk).image(), self.nodes()[j].clus_list@),
                                names@[k]@,
                            ) == -1;
                        assert(names@[k]@ == path_components(path@)[k]);
                    }
                }
                Err(e)
            },
        }
    }

    /// Marks the short entry of an open file as deleted (first byte 0xE5)
    /// and unlinks its node from its parent.
    pub fn delete_file<D: FileHandler>(&mut self, disk: &mut D, req: &Request) -> (r: Result<(), FsError>)
        requires
            old(self).wf(),
            req.idx < old(self).nodes().len(),
        ensures
            final(self).wf(),
            final(self).same_geometry(old(self)),
            req.idx == old(self).root_index() ==> r == Err::<(), FsError>(FsError::InvalidInput),
            req.idx != old(self).root_index() && ({
                let node = old(self).nodes()[req.idx as int];
                node.offset as int / (old(self).bytes_per_clus as int / 32) >= old(self).nodes()[node.parent as int].clus_list@.len()
            }) ==> r == Err::<(), FsError>(FsError::InvalidData),
            r is Ok ==> {
                let node = old(self).nodes()[req.idx as int];
                let pos = old(self).entry_pos(node);
                &&& 0 <= pos < old(disk).image().len()
                &&& final(disk).image() == old(disk).image().update(pos, 0xE5u8)
                &&& !final(self).nodes()[node.parent as int].children@.contains(req.idx)
            },
    {
        if req.idx == self.root {
            return Err(FsError::InvalidInput);
        }
        let (parent, offset) = {
            let this = self.cache.read(req.idx);
            (this.parent, this.offset)
        };
        proof {
            assert(node_ok(self.cache.slots()[req.idx as int], self.cache.slots().len() as int));
        }
        let epc = (self.bytes_per_clus / 32) as usize;
        let k = offset as usize / epc;
        let num = offset as usize % epc;
        assert(32 * num + 32 <= self.bytes_per_clus) by (nonlinear_arith)
            requires
                epc == self.bytes_per_clus / 32,
                self.bytes_per_clus % 32 == 0,
                self.bytes_per_clus >= 512,
                num as int == offset as int % (epc as int),
        ;
        let clus = {
            let p = self.cache.read(parent);
            if k >= p.clus_list.len() {
                return Err(FsError::InvalidData);
            }
            p.clus_list[k]
        };
        let ghost img = disk.image();
        let mut buf = self.read_dir_entry(disk, clus, num)?;
        buf.set(0, 0xE5u8);
        self.write_dir_entry(disk, clus, num, &buf)?;
        proof {
            let pos = self.slot_pos(clus as int, num as int);
            assert(disk.image() =~= img.update(pos, 0xE5u8));
        }
        let mut kept: Vec<usize> = Vec::new();
        let children = copy_vec(&self.cache.read(parent).children);
        proof {
            assert(node_ok(self.cache.slots()[parent as int], self.cache.slots().len() as int));
        }
        let mut i: usize = 0;
        while i < children.len()
            invariant
                i <= children@.len(),
                forall|x: int| 0 <= x < children@.len() ==> #[trigger] children@[x] < self.nodes().len(),
                forall|x: int| 0 <= x < kept@.len() ==> #[trigger] kept@[x] < self.nodes().len() && kept@[x] != req.idx,
            decreases children@.len() - i,
        {
            if children[i] != req.idx {
                kept.push(children[i]);
            }
            i = i + 1;
        }
        let clus_list = copy_vec(&self.cache.read(parent).clus_list);
        self.set_node(parent, kept, clus_list);
        assert(!self.nodes()[parent as int].children@.contains(req.idx));
        Ok(())
    }

    /// Reads the boot sector of the partition at `pos` and sets up the
    /// geometry from it.
    pub fn init<D: FileHandler>(&mut self, disk: &mut D, pos: &PtPosition) -> (r: Result<(), FsError>)
        ensures
            final(disk).image() == old(disk).image(),
            r is Ok ==> {
                let sector = old(disk).image().subrange(512 * pos.start, 512 * pos.start + 512);
                &&& final(self).bpb.decodes(sector)
                &&& final(self).bpb.acceptable(pos.start)
                &&& final(self).wf()
                &&& final(self).set_up_from(final(self).bpb, pos.start as int)
            },
            r is Err ==> *final(self) == *old(self),
            pos.start >= 0x1_0000_0000 ==> r == Err::<(), FsError>(FsError::InvalidData),
            r matches Err(e) ==> e == FsError::InvalidData || e == FsError::Io,
            r == Err::<(), FsError>(FsError::InvalidData) ==> pos.start >= 0x1_0000_0000 || forall|b: BPB|
                #[trigger] b.decodes(old(disk).image().subrange(512 * pos.start, 512 * pos.start + 512))
                    ==> !b.acceptable(pos.start),
    {
        if pos.start >= 0x1_0000_0000 {
            return Err(FsError::InvalidData);
        }
        let mut buf: Vec<u8> = vec![0u8; SECTOR_SIZE];
        disk.seek(pos.start * 512);
        match disk.read(&mut buf) {
            Ok(_) => {},
            Err(_) => return Err(FsError::Io),
        }
        let bpb = BPB::from_sector(&buf);
        let r = self.init_with_bpb(bpb, pos.start);
        proof {
            if r is Err {
                assert forall|b: BPB| #[trigger] b.decodes(buf@) implies !b.acceptable(pos.start) by {
                    assert(b == bpb);
                }
            }
        }
        r
    }
}

/// Offset within its cluster where segment `j` of a transfer from `offset` starts.
pub open spec fn seg_start(offset: int, bpc: int, j: int) -> int {
    if j == 0 {
        offset % bpc
    } else {
        0
    }
}

/// Bytes of a transfer of `size` bytes not yet covered before segment `j`.
pub open spec fn seg_remaining(offset: int, size: int, bpc: int, j: nat) -> int
    decreases j, 0int,
{
    if j == 0 {
        size
    } else {
        seg_remaining(offset, size, bpc, (j - 1) as nat) - seg_len(offset, size, bpc, (j - 1) as nat)
    }
}

/// Length of segment `j`: what is left, at most up to the end of its cluster.
pub open spec fn seg_len(offset: int, size: int, bpc: int, j: nat) -> int
    decreases j, 1int,
{
    let rem = seg_remaining(offset, size, bpc, j);
    if rem < bpc - seg_start(offset, bpc, j as int) {
        rem
    } else {
        bpc - seg_start(offset, bpc, j as int)
    }
}

/// The first chain index a transfer touches.
pub open spec fn range_left(offset: int, bpc: int) -> int {
    offset / bpc
}

/// One past the last chain index a transfer touches, bounded by the file size.
pub open spec fn range_right(offset: int, size: int, bpc: int, fsize: int) -> int {
    let count = (offset + size + bpc - 1) / bpc - offset / bpc;
    let by_size = (fsize + bpc - 1) / bpc;
    if by_size >= offset / bpc + count {
        offset / bpc + count
    } else {
        by_size
    }
}

impl FatFs {
    /// The entries that name `leaf` in the directory at `parent_idx`, with the
    /// first cluster of the new file taken after its name is settled.
    #[verifier::spinoff_prover]
    #[verifier::rlimit(100)]
    fn prepare_entries<D: FileHandler>(
        &self,
        disk: &mut D,
        parent_idx: usize,
        leaf: &Vec<char>,
        ftype: FileType,
        attribute: u8,
        ctime_tenth: u8,
        ctime: u16,
        cdate: u16,
        lacc_date: u16,
        wtime: u16,
        wdate: u16,
        file_size: u32,
    ) -> (r: Result<(DirInfo, Vec<u8>, u32), FsError>)
        requires
            self.wf(),
            parent_idx < self.nodes().len(),
        ensures
            r matches Err(e) ==> (e == FsError::InvalidInput && !valid_short_name(leaf@) && !(self.variant()
                == FatFsType::FAT32 && valid_long_name(leaf@))) || e == FsError::InvalidData || e == FsError::Io
                || e == FsError::AlreadyExists || e == FsError::Unsupported || e == FsError::OutOfSpace,
            r == Err::<(DirInfo, Vec<u8>, u32), FsError>(FsError::AlreadyExists) ==> all_aliases_taken(
                self.stream_of(old(disk).image(), self.nodes()[parent_idx as int].clus_list@),
                leaf@,
            ),
            r matches Ok((dir, blocks, first)) ==> {
                let f = last_field(blocks@);
                &&& self.lowest_free(old(disk).image(), first as int)
                &&& dir.name@ == leaf@
                &&& dir.ftype == ftype
                &&& dir.parent == parent_idx
                &&& blocks@.len() >= 32
                &&& blocks@.len() % 32 == 0
                &&& blocks@.subrange(blocks@.len() - 32, blocks@.len() as int) == short_entry_of(f, attribute,
                    nt_res_of(leaf@), ctime_tenth, ctime, cdate, lacc_date, first, wtime, wdate, file_size)
                &&& (valid_short_name(leaf@) ==> f == short_field(leaf@))
                &&& (!valid_short_name(leaf@) ==> chosen_alias(
                    self.stream_of(old(disk).image(), self.nodes()[parent_idx as int].clus_list@),
                    leaf@,
                    f,
                ))
                &&& entries_for(blocks@, leaf@, f, short_entry_of(f, attribute,
                    nt_res_of(leaf@), ctime_tenth, ctime, cdate, lacc_date, first, wtime, wdate, file_size))
            },
    {
        let (dir, blocks0) = match self.create_file_block(
            disk,
            parent_idx,
            leaf,
            ftype,
            attribute,
            ctime_tenth,
            ctime,
            cdate,
            lacc_date,
            0,
            wtime,
            wdate,
            file_size,
        ) {
            Ok(x) => x,
            Err(e) => {
                proof {
                    if e == FsError::AlreadyExists {
                        assert(all_aliases_taken(
                            self.stream_of(old(disk).image(), self.nodes()[parent_idx as int].clus_list@),
                            leaf@,
                        ));
                    }
                }
                return Err(e);
            },
        };
        let first_clus = self.alloc_clus(disk, 0, true)?;
        let n0 = blocks0.len();
        let field = slice_bytes(&blocks0, n0 - 32, n0 - 21);
        assert(field@ == last_field(blocks0@));
        let short_dir = ShortDir::new(
            ShortName { field },
            leaf,
            attribute,
            ctime_tenth,
            ctime,
            cdate,
            lacc_date,
            first_clus,
            wtime,
            wdate,
            file_size,
        );
        let sb = short_dir.to_bytes();
        let mut blocks = slice_bytes(&blocks0, 0, n0 - 32);
        let ghost head = blocks@;
        crate::fat::dir::append_bytes(&mut blocks, &sb);
        proof {
            let f = last_field(blocks0@);
            let s0 = short_entry_of(f, attribute, nt_res_of(leaf@), ctime_tenth, ctime, cdate, lacc_date, 0,
                wtime, wdate, file_size);
            assert(s0.len() == 32);
            if valid_short_name(leaf@) {
                assert(head =~= Seq::<u8>::empty());
            } else {
                assert(head =~= long_entries(leaf@, chksum_of(f)));
            }
            assert(sb@.subrange(0, 11) =~= f);
            assert(blocks@.subrange(blocks@.len() - 32, blocks@.len() as int) =~= sb@);
            assert(last_field(blocks@) =~= f);
        }
        Ok((dir, blocks, first_clus))
    }
}

impl FatFs {
    /// Engines with the same FAT layout agree on which cluster is the lowest free one.
    pub proof fn lemma_lowest_free_same_layout(&self, other: &FatFs, img: Seq<u8>, c: int)
        requires
            self.same_geometry(other),
        ensures
            self.lowest_free(img, c) == other.lowest_free(img, c),
    {
        assert forall|j: int| #[trigger] self.fat_entry(img, j) == other.fat_entry(img, j) by {
            assert(self.fat_copy_pos(self.active_fat as int) == other.fat_copy_pos(other.active_fat as int));
            assert(self.cell_pos(self.active_fat as int, j) == other.cell_pos(other.active_fat as int, j));
        }
        if self.lowest_free(img, c) {
            assert(other.fat_entry(img, c) == 0);
            assert forall|j: int| 3 <= j < c implies other.fat_entry(img, j) != 0 by {
                assert(self.fat_entry(img, j) != 0);
            }
        }
        if other.lowest_free(img, c) {
            assert forall|j: int| 3 <= j < c implies self.fat_entry(img, j) != 0 by {
                assert(other.fat_entry(img, j) != 0);
            }
        }
    }

    /// One more cluster taken while it is the lowest free one keeps the growth
    /// of a chain well described.
    proof fn lemma_growth_step(&self, img: Seq<u8>, base: Seq<u32>, a: Seq<u32>, new: u32, cur: Seq<u8>)
        requires
            cur == self.grown_image(img, base, a),
            self.growth_ok(img, base, a),
            self.lowest_free(cur, new as int),
        ensures
            self.grown_image(img, base, a.push(new)) == self.alloc_image(cur, new as int, (base + a).last() as int, false),
            self.growth_ok(img, base, a.push(new)),
    {
        let a2 = a.push(new);
        assert(a2.drop_last() =~= a);
        assert forall|k: int| 0 <= k < a2.len() implies self.lowest_free(self.grown_image(img, base, a2.take(k)), #[trigger] a2[k] as int) by {
            if k < a.len() {
                assert(a2.take(k) =~= a.take(k));
                assert(a2[k] == a[k]);
            } else {
                assert(a2.take(k) =~= a);
            }
        }
    }

    /// Links newly allocated clusters after `chain` until it holds more than
    /// `upto` clusters; `chain` extends `base`, whose growth from `img` the
    /// disk holds.
    #[verifier::rlimit(100)]
    #[verifier::spinoff_prover]
    fn extend_chain<D: FileHandler>(
        &self,
        disk: &mut D,
        chain: &mut Vec<u32>,
        upto: u64,
        Ghost(img): Ghost<Seq<u8>>,
        Ghost(base): Ghost<Seq<u32>>,
    ) -> (r: Result<(), FsError>)
        requires
            self.wf(),
            old(chain)@.len() >= 1,
            upto < 0x1_0000_0000,
            old(chain)@.len() <= upto,
            old(chain)@.len() >= base.len(),
            old(chain)@.subrange(0, base.len() as int) == base,
            old(disk).image() == self.grown_image(img, base, old(chain)@.skip(base.len() as int)),
            self.growth_ok(img, base, old(chain)@.skip(base.len() as int)),
        ensures
            final(chain)@.len() >= old(chain)@.len(),
            final(chain)@.subrange(0, old(chain)@.len() as int) == old(chain)@,
            final(chain)@.subrange(0, base.len() as int) == base,
            r is Ok ==> final(chain)@.len() == upto + 1,
            r is Ok ==> final(disk).image() == self.grown_image(img, base, final(chain)@.skip(base.len() as int)),
            r is Ok ==> self.growth_ok(img, base, final(chain)@.skip(base.len() as int)),
    {
        let ghost start = chain@;
        while (chain.len() as u64) <= upto
            invariant
                self.wf(),
                start == old(chain)@,
                chain@.len() >= start.len(),
                start.len() >= 1,
                chain@.subrange(0, start.len() as int) == start,
                chain@.subrange(0, base.len() as int) == base,
                chain@.len() >= base.len(),
                chain@.len() <= upto + 1,
                upto < 0x1_0000_0000,
                disk.image() == self.grown_image(img, base, chain@.skip(base.len() as int)),
                self.growth_ok(img, base, chain@.skip(base.len() as int)),
            decreases upto + 1 - chain@.len(),
        {
            let ghost cur = disk.image();
            let new = self.alloc_clus(disk, chain[chain.len() - 1], false)?;
            let ghost before_push = chain@;
            let ghost a = before_push.skip(base.len() as int);
            chain.push(new);
            proof {
                assert(base + a =~= before_push);
                self.lemma_growth_step(img, base, a, new, cur);
                assert(chain@.skip(base.len() as int) =~= a.push(new));
                assert(chain@.subrange(0, start.len() as int) =~= before_push.subrange(0, start.len() as int));
                assert(chain@.subrange(0, base.len() as int) =~= before_push.subrange(0, base.len() as int));
            }
        }
        Ok(())
    }
}

impl FatFs {
    /// The ranges of a transfer over chain indices `left..right` (see
    /// `range_plan`), growing `chain` where it is too short.
    #[verifier::rlimit(100)]
    #[verifier::spinoff_prover]
    fn build_ranges<D: FileHandler>(
        &self,
        disk: &mut D,
        chain: &mut Vec<u32>,
        left: u64,
        right: u64,
        off: u64,
        sz: u64,
        Ghost(img): Ghost<Seq<u8>>,
        Ghost(old_chain): Ghost<Seq<u32>>,
    ) -> (r: Result<Vec<(u64, u64)>, FsError>)
        requires
            self.wf(),
            old(chain)@ == old_chain,
            old_chain.len() <= 0xFFFF_FFFF,
            old(disk).image() == img,
            right <= 0x1_0000_0000,
            off <= 0xFFFF_FFFF_FFFF,
            sz <= 0xFFFF_FFFF_FFFF,
            left == off / self.bytes_per_clus,
        ensures
            final(chain)@.len() >= old_chain.len(),
            final(chain)@.subrange(0, old_chain.len() as int) == old_chain,
            r matches Ok(ranges) ==> {
                let bpc = self.bytes_per_clus as int;
                let ch = final(chain)@;
                &&& ranges@.len() == if right > left { right - left } else { 0 }
                &&& ranges@.len() > 0 ==> left + ranges@.len() <= ch.len()
                &&& forall|j: int| 0 <= j < ranges@.len() ==> {
                    &&& #[trigger] ranges@[j].0 == self.cluster_pos(ch[left as int + j] as int) + seg_start(off as int, bpc, j)
                    &&& ranges@[j].1 == ranges@[j].0 + seg_len(off as int, sz as int, bpc, j as nat)
                }
                &&& final(disk).image() == self.grown_image(img, old_chain, ch.skip(old_chain.len() as int))
                &&& self.growth_ok(img, old_chain, ch.skip(old_chain.len() as int))
                &&& (ranges@.len() == 0 ==> ch == old_chain)
                &&& (ranges@.len() > 0 ==> ch.len() == if old_chain.len() >= right { old_chain.len() as int } else { right as int })
            },
    {
        let bpc = self.bytes_per_clus;
        assert(chain@.skip(old_chain.len() as int) =~= Seq::<u32>::empty());
        assert(chain@.subrange(0, old_chain.len() as int) =~= old_chain);
        let mut ranges: Vec<(u64, u64)> = Vec::new();
        let mut i = left;
        let mut rem = sz;
        let mut updated = false;
        while i < right
            invariant
                self.wf(),
                bpc == self.bytes_per_clus,
                left == off / self.bytes_per_clus,
                off <= 0xFFFF_FFFF_FFFF,
                sz <= 0xFFFF_FFFF_FFFF,
                old_chain.len() <= 0xFFFF_FFFF,
                left <= i,
                i <= right || i == left,
                right <= 0x1_0000_0000,
                ranges@.len() == i - left,
                ranges@.len() > 0 ==> left + ranges@.len() <= chain@.len(),
                chain@.len() >= old_chain.len(),
                chain@.subrange(0, old_chain.len() as int) == old_chain,
                chain@.len() <= 0x1_0000_0000,
                rem as int == seg_remaining(off as int, sz as int, bpc as int, (i - left) as nat),
                !updated ==> chain@ == old_chain,
                chain@ == old_chain || chain@.len() == i,
                chain@ != old_chain ==> old_chain.len() < i,
                i > left ==> chain@.len() >= i,
                !updated || ranges@.len() > 0,
                disk.image() == self.grown_image(img, old_chain, chain@.skip(old_chain.len() as int)),
                self.growth_ok(img, old_chain, chain@.skip(old_chain.len() as int)),
                forall|j: int| 0 <= j < ranges@.len() ==> {
                    &&& left as int + j < chain@.len()
                    &&& #[trigger] ranges@[j].0 == self.cluster_pos(chain@[left as int + j] as int) + seg_start(off as int, bpc as int, j)
                    &&& ranges@[j].1 == ranges@[j].0 + seg_len(off as int, sz as int, bpc as int, j as nat)
                },
            decreases right - i,
        {
            let ghost prev = chain@;
            if (chain.len() as u64) <= i {
                if chain.len() == 0 {
                    return Err(FsError::InvalidData);
                }
                self.extend_chain(disk, chain, i, Ghost(img), Ghost(old_chain))?;
                updated = true;
            }
            assert(!updated ==> chain@ == old_chain);
            assert forall|j: int| 0 <= j < ranges@.len() implies #[trigger] chain@[left as int + j] == prev[left as int + j] by {
                let t = ranges@[j].0;
                assert(left as int + j < prev.len());
                assert(chain@.subrange(0, prev.len() as int)[left as int + j] == chain@[left as int + j]);
            }
            let clus = chain[i as usize];
            let position: u64 = if i == left {
                off % bpc
            } else {
                0
            };
            let length: u64 = if rem < bpc - position {
                rem
            } else {
                bpc - position
            };
            assert(position < bpc);
            let start = match self.to_byte_cnt(clus) {
                Ok(p) => p + position,
                Err(_) => return Err(FsError::InvalidData),
            };
            assert(length as int == seg_len(off as int, sz as int, bpc as int, (i - left) as nat));
            assert(start as int == self.cluster_pos(chain@[i as int] as int) + seg_start(off as int, bpc as int, (i - left) as int));
            ranges.push((start, start + length));
            proof {
                let jj: nat = (i - left) as nat;
                assert(seg_remaining(off as int, sz as int, bpc as int, jj + 1) == seg_remaining(
                    off as int, sz as int, bpc as int, jj) - seg_len(off as int, sz as int, bpc as int, jj));
                assert((i + 1 - left) as nat == jj + 1);
            }
            rem = rem - length;
            i = i + 1;
        }
        proof {
            if ranges@.len() == 0 {
                assert(chain@ == old_chain);
            } else {
                assert(i == right);
                if chain@ != old_chain {
                    assert(chain@.len() == right);
                } else {
                    assert(old_chain.len() >= right);
                }
            }
        }
        Ok(ranges)
    }
}

impl FatFs {
    /// The first chain index and one past the last one that a transfer of
    /// `size` bytes from the offset of `req` touches, clipped to the file size
    /// its short entry records.
    #[verifier::rlimit(50)]
    fn plan_bounds<D: FileHandler>(&self, disk: &mut D, req: &Request, size: usize) -> (r: Result<(u64, u64), FsError>)
        requires
            self.wf(),
            req.idx < self.nodes().len(),
        ensures
            final(disk).image() == old(disk).image(),
            req.offset > 0xFFFF_FFFF_FFFF || size > 0xFFFF_FFFF_FFFF ==> r == Err::<(u64, u64), FsError>(FsError::InvalidInput),
            req.offset <= 0xFFFF_FFFF_FFFF && size <= 0xFFFF_FFFF_FFFF && ({
                let node = self.nodes()[req.idx as int];
                node.offset as int / (self.bytes_per_clus as int / 32) >= self.nodes()[node.parent as int].clus_list@.len()
            }) ==> r == Err::<(u64, u64), FsError>(FsError::InvalidData),
            r matches Ok((left, right)) ==> {
                let node = self.nodes()[req.idx as int];
                let fsize = le32(old(disk).image(), self.entry_pos(node) + 28);
                &&& req.offset <= 0xFFFF_FFFF_FFFF && size <= 0xFFFF_FFFF_FFFF
                &&& left as int == range_left(req.offset as int, self.bytes_per_clus as int)
                &&& right as int == range_right(req.offset as int, size as int, self.bytes_per_clus as int, fsize)
                &&& right <= 0x1_0000_0000
            },
    {
        if req.offset as u64 > 0xFFFF_FFFF_FFFF || size as u64 > 0xFFFF_FFFF_FFFF {
            return Err(FsError::InvalidInput);
        }
        let (parent, slot) = {
            let this = self.cache.read(req.idx);
            (this.parent, this.offset)
        };
        proof {
            assert(node_ok(self.cache.slots()[req.idx as int], self.cache.slots().len() as int));
        }
        let bpc = self.bytes_per_clus;
        let epc = (bpc / 32) as usize;
        let k = slot as usize / epc;
        let num = slot as usize % epc;
        assert(32 * num + 32 <= self.bytes_per_clus) by (nonlinear_arith)
            requires
                epc == self.bytes_per_clus / 32,
                self.bytes_per_clus % 32 == 0,
                self.bytes_per_clus >= 512,
                num as int == slot as int % (epc as int),
        ;
        let eclus = {
            let p = self.cache.read(parent);
            if k >= p.clus_list.len() {
                return Err(FsError::InvalidData);
            }
            p.clus_list[k]
        };
        let e = self.read_dir_entry(disk, eclus, num)?;
        let fsize = read_le32(&e, 28) as u64;
        let ghost img = old(disk).image();
        assert(fsize == le32(img, self.entry_pos(self.nodes()[req.idx as int]) + 28));
        let off = req.offset as u64;
        let sz = size as u64;
        assert((off as int + sz as int + bpc as int - 1) / (bpc as int) >= (off as int) / (bpc as int)) by (nonlinear_arith)
            requires
                bpc > 0,
                sz >= 0,
                off >= 0,
        ;
        let count = ceil_div(off + sz, bpc) - off / bpc;
        let left = off / bpc;
        let by_size = ceil_div(fsize, bpc);
        assert(by_size <= 0x1_0000_0000) by (nonlinear_arith)
            requires
                by_size as int == (fsize as int + bpc as int - 1) / (bpc as int),
                fsize < 0x1_0000_0000,
                bpc >= 1,
        ;
        let right = if by_size >= left + count {
            left + count
        } else {
            by_size
        };
        assert(right as int == range_right(off as int, sz as int, bpc as int, fsize as int));
        Ok((left, right))
    }
}

impl FatFs {
    /// `img` once the clusters `added` are linked, one after another, after
    /// the chain `chain` (see `alloc_image`).
    pub open spec fn grown_image(&self, img: Seq<u8>, chain: Seq<u32>, added: Seq<u32>) -> Seq<u8>
        decreases added.len(),
    {
        if added.len() == 0 {
            img
        } else {
            self.alloc_image(
                self.grown_image(img, chain, added.drop_last()),
                added.last() as int,
                (chain + added.drop_last()).last() as int,
                false,
            )
        }
    }

    /// Whether each cluster of `added` was the lowest free one when it was taken.
    pub open spec fn growth_ok(&self, img: Seq<u8>, chain: Seq<u32>, added: Seq<u32>) -> bool {
        forall|k: int| 0 <= k < added.len() ==> self.lowest_free(self.grown_image(img, chain, added.take(k)), #[trigger] added[k] as int)
    }

    /// Whether `ranges` are the byte ranges that hold `size` bytes of the file
    /// at pool index `idx` from byte `offset`, clipped to the size its short
    /// entry records in `img`, over the chain that node has in `after`.
    pub open spec fn range_plan(&self, img: Seq<u8>, after: FatFs, idx: usize, offset: usize, size: usize, ranges: Seq<(u64, u64)>) -> bool {
        let node = self.nodes()[idx as int];
        let pos = self.entry_pos(node);
        let fsize = le32(img, pos + 28);
        let bpc = self.bytes_per_clus as int;
        let left = range_left(offset as int, bpc);
        let right = range_right(offset as int, size as int, bpc, fsize);
        let ch = after.nodes()[idx as int].clus_list@;
        &&& ranges.len() == if right > left { right - left } else { 0 }
        &&& ch.len() >= node.clus_list@.len()
        &&& ch.subrange(0, node.clus_list@.len() as int) == node.clus_list@
        &&& ranges.len() > 0 ==> left + ranges.len() <= ch.len()
        &&& forall|j: int| 0 <= j < ranges.len() ==> {
            &&& #[trigger] ranges[j].0 == self.cluster_pos(ch[left + j] as int) + seg_start(offset as int, bpc, j)
            &&& ranges[j].1 == ranges[j].0 + seg_len(offset as int, size as int, bpc, j as nat)
        }
    }
}

impl FatFs {
    /// The absolute byte ranges that hold `size` bytes of the file of `req`
    /// from its offset, clipped to the file size recorded in its short entry;
    /// the chain grows when it is shorter than the ranges need.
    #[verifier::loop_isolation(false)]
    #[verifier::rlimit(100)]
    #[verifier::spinoff_prover]
    pub fn file_range<D: FileHandler>(&mut self, disk: &mut D, req: &Request, size: usize) -> (r: Result<Vec<(u64, u64)>, FsError>)
        requires
            old(self).wf(),
            req.idx < old(self).nodes().len(),
        ensures
            final(self).wf(),
            final(self).same_geometry(old(self)),
            final(self).nodes().len() == old(self).nodes().len(),
            forall|i: int| 0 <= i < old(self).nodes().len() && i != req.idx ==> final(self).nodes()[i] == old(self).nodes()[i],
            same_node_head(final(self).nodes()[req.idx as int], old(self).nodes()[req.idx as int]),
            r is Ok ==> req.offset <= 0xFFFF_FFFF_FFFF && size <= 0xFFFF_FFFF_FFFF,
            r matches Ok(ranges) ==> old(self).range_plan(old(disk).image(), *final(self), req.idx, req.offset, size, ranges@),
            req.offset > 0xFFFF_FFFF_FFFF || size > 0xFFFF_FFFF_FFFF ==> r == Err::<Vec<(u64, u64)>, FsError>(FsError::InvalidInput),
            req.offset <= 0xFFFF_FFFF_FFFF && size <= 0xFFFF_FFFF_FFFF && ({
                let node = old(self).nodes()[req.idx as int];
                node.offset as int / (old(self).bytes_per_clus as int / 32) >= old(self).nodes()[node.parent as int].clus_list@.len()
            }) ==> r == Err::<Vec<(u64, u64)>, FsError>(FsError::InvalidData),
            r matches Ok(ranges) ==> {
                let old_ch = old(self).nodes()[req.idx as int].clus_list@;
                let ch = final(self).nodes()[req.idx as int].clus_list@;
                let added = ch.skip(old_ch.len() as int);
                let need = range_left(req.offset as int, old(self).bytes_per_clus as int) + ranges@.len();
                &&& final(disk).image() == old(self).grown_image(old(disk).image(), old_ch, added)
                &&& old(self).growth_ok(old(disk).image(), old_ch, added)
                &&& (ranges@.len() == 0 ==> ch == old_ch)
                &&& (ranges@.len() > 0 ==> ch.len() == if old_ch.len() >= need { old_ch.len() as int } else { need })
            },
    {
        let (left, right) = self.plan_bounds(disk, req, size)?;
        let ghost img = old(disk).image();
        let bpc = self.bytes_per_clus;
        let off = req.offset as u64;
        let sz = size as u64;
        let mut chain = copy_vec(&self.cache.read(req.idx).clus_list);
        if chain.len() > 0xFFFF_FFFF {
            return Err(FsError::InvalidData);
        }
        let ghost old_chain = chain@;
        assert(chain@.subrange(0, old_chain.len() as int) =~= old_chain);
        assert(old_chain == old(self).nodes()[req.idx as int].clus_list@);
        assert(chain@.skip(old_chain.len() as int) =~= Seq::<u32>::empty());
        let n0 = chain.len();
        let ranges = self.build_ranges(disk, &mut chain, left, right, off, sz, Ghost(img), Ghost(old_chain))?;
        let updated = chain.len() != n0;
        proof {
            if !updated {
                assert(chain@ =~= old_chain);
            }
        }
        if updated {
            let children = copy_vec(&self.cache.read(req.idx).children);
            proof {
                assert(node_ok(self.cache.slots()[req.idx as int], self.cache.slots().len() as int));
            }
            self.set_node(req.idx, children, chain);
        }
        assert(self.nodes()[req.idx as int].clus_list@ == chain@);
        Ok(ranges)
    }
}

/// The bytes of `img` in the ranges `ranges`, one after the other.
pub open spec fn gather(img: Seq<u8>, ranges: Seq<(u64, u64)>) -> Seq<u8>
    decreases ranges.len(),
{
    if ranges.len() == 0 {
        Seq::empty()
    } else {
        gather(img, ranges.drop_last()) + img.subrange(ranges.last().0 as int, ranges.last().1 as int)
    }
}

/// Total bytes of a list of ranges.
pub open spec fn total_len(ranges: Seq<(u64, u64)>) -> int
    decreases ranges.len(),
{
    if ranges.len() == 0 {
        0
    } else {
        total_len(ranges.drop_last()) + (ranges.last().1 - ranges.last().0)
    }
}

/// `img` with `data` written range after range, in order.
pub open spec fn scatter(img: Seq<u8>, ranges: Seq<(u64, u64)>, data: Seq<u8>) -> Seq<u8>
    decreases ranges.len(),
{
    if ranges.len() == 0 {
        img
    } else {
        let t = total_len(ranges.drop_last());
        splice(
            scatter(img, ranges.drop_last(), data),
            ranges.last().0 as int,
            data.subrange(t, t + (ranges.last().1 - ranges.last().0)),
        )
    }
}

/// The segment lengths of a transfer add up to no more than its size.
proof fn lemma_seg_remaining(offset: int, size: int, bpc: int, j: nat)
    requires
        size >= 0,
        bpc > 0,
        0 <= offset,
    ensures
        0 <= seg_len(offset, size, bpc, j) <= seg_remaining(offset, size, bpc, j),
        seg_remaining(offset, size, bpc, j) >= 0,
        seg_remaining(offset, size, bpc, j + 1) == seg_remaining(offset, size, bpc, j) - seg_len(offset, size, bpc, j),
    decreases j,
{
    if j > 0 {
        lemma_seg_remaining(offset, size, bpc, (j - 1) as nat);
    }
    assert(seg_start(offset, bpc, j as int) < bpc) by (nonlinear_arith)
        requires
            bpc > 0,
            offset >= 0,
            seg_start(offset, bpc, j as int) == if j == 0 { offset % bpc } else { 0 },
    ;
}

impl FatFs {
    /// Reads up to `size` bytes of the file of `req` from its offset into
    /// `buf` and advances the offset by the count read.
    #[verifier::loop_isolation(false)]
    #[verifier::spinoff_prover]
    pub fn read<D: FileHandler>(&mut self, disk: &mut D, req: &mut Request, buf: &mut Vec<u8>, size: usize) -> (r: Result<usize, FsError>)
        requires
            old(self).wf(),
            old(req).idx < old(self).nodes().len(),
            size <= old(buf)@.len(),
        ensures
            final(self).wf(),
            final(self).same_geometry(old(self)),
            final(self).nodes().len() == old(self).nodes().len(),
            final(req).idx == old(req).idx,
            final(buf)@.len() == old(buf)@.len(),
            old(req).offset > 0xFFFF_FFFF_FFFF || size > 0xFFFF_FFFF_FFFF ==> r == Err::<usize, FsError>(FsError::InvalidInput),
            old(req).offset <= 0xFFFF_FFFF_FFFF && size <= 0xFFFF_FFFF_FFFF && ({
                let node = old(self).nodes()[old(req).idx as int];
                node.offset as int / (old(self).bytes_per_clus as int / 32) >= old(self).nodes()[node.parent as int].clus_list@.len()
            }) ==> r == Err::<usize, FsError>(FsError::InvalidData),
            r matches Ok(n) ==> {
                &&& n <= size
                &&& final(req).offset == old(req).offset + n
                &&& final(buf)@.subrange(n as int, final(buf)@.len() as int) == old(buf)@.subrange(n as int, old(buf)@.len() as int)
                &&& exists|ranges: Seq<(u64, u64)>|
                    old(self).range_plan(old(disk).image(), *final(self), old(req).idx, old(req).offset, size, ranges)
                    && final(buf)@.subrange(0, n as int) == #[trigger] gather(final(disk).image(), ranges)
            },
    {
        let ranges = self.file_range(disk, req, size)?;
        let ghost bpc = self.bytes_per_clus as int;
        let ghost off = req.offset as int;
        let ghost img = disk.image();
        let mut done: usize = 0;
        let mut k: usize = 0;
        while k < ranges.len()
            invariant
                k <= ranges@.len(),
                buf@.len() == old(buf)@.len(),
                done as int == size - seg_remaining(off, size as int, bpc, k as nat),
                done <= size,
                disk.image() == img,
                buf@.subrange(done as int, buf@.len() as int) == old(buf)@.subrange(done as int, old(buf)@.len() as int),
                buf@.subrange(0, done as int) == gather(img, ranges@.take(k as int)),
            decreases ranges@.len() - k,
        {
            let (start, end) = ranges[k];
            proof {
                lemma_seg_remaining(off, size as int, bpc, k as nat);
            }
            let length = (end - start) as usize;
            let mut tmp: Vec<u8> = vec![0u8; length];
            disk.seek(start);
            match disk.read(&mut tmp) {
                Ok(_) => {},
                Err(_) => return Err(FsError::Io),
            }
            let ghost before = buf@;
            let mut t: usize = 0;
            while t < length
                invariant
                    t <= length,
                    tmp@.len() == length,
                    done + length <= buf@.len(),
                    buf@.len() == before.len(),
                    forall|x: int| 0 <= x < t ==> buf@[done + x] == tmp@[x],
                    forall|x: int| 0 <= x < buf@.len() && !(done <= x < done + t) ==> buf@[x] == before[x],
                decreases length - t,
            {
                buf.set(done + t, tmp[t]);
                t = t + 1;
            }
            assert(ranges@.take(k + 1).drop_last() =~= ranges@.take(k as int));
            assert(buf@.subrange(0, done + length) =~= before.subrange(0, done as int) + tmp@);
            assert(buf@.subrange(done + length, buf@.len() as int) =~= before.subrange(done + length, before.len() as int));
            assert forall|x: int| done + length <= x < before.len() implies before[x] == old(buf)@[x] by {
                assert(before.subrange(done as int, before.len() as int)[x - done] == before[x]);
                assert(old(buf)@.subrange(done as int, old(buf)@.len() as int)[x - done] == old(buf)@[x]);
            }
            assert(before.subrange(done + length, before.len() as int) =~= old(buf)@.subrange(done + length, old(buf)@.len() as int));
            done = done + length;
            k = k + 1;
        }
        assert(ranges@.take(ranges@.len() as int) =~= ranges@);
        let ghost witness = ranges@;
        match req.offset.checked_add(done) {
            Some(v) => {
                req.offset = v;
            },
            None => return Err(FsError::InvalidInput),
        }
        assert(buf@.subrange(0, done as int) == gather(disk.image(), witness));
        Ok(done)
    }

    /// Writes `size` bytes of `buf` to the file of `req` from its offset,
    /// within the size its entry records, growing the chain as needed, and
    /// advances the offset by the count written.
    #[verifier::loop_isolation(false)]
    #[verifier::spinoff_prover]
    pub fn write<D: FileHandler>(&mut self, disk: &mut D, req: &mut Request, buf: &Vec<u8>, size: usize) -> (r: Result<usize, FsError>)
        requires
            old(self).wf(),
            old(req).idx < old(self).nodes().len(),
            size <= buf@.len(),
        ensures
            final(self).wf(),
            final(self).same_geometry(old(self)),
            final(self).nodes().len() == old(self).nodes().len(),
            final(req).idx == old(req).idx,
            old(req).offset > 0xFFFF_FFFF_FFFF || size > 0xFFFF_FFFF_FFFF ==> r == Err::<usize, FsError>(FsError::InvalidInput),
            old(req).offset <= 0xFFFF_FFFF_FFFF && size <= 0xFFFF_FFFF_FFFF && ({
                let node = old(self).nodes()[old(req).idx as int];
                node.offset as int / (old(self).bytes_per_clus as int / 32) >= old(self).nodes()[node.parent as int].clus_list@.len()
            }) ==> r == Err::<usize, FsError>(FsError::InvalidData),
            r matches Ok(n) ==> {
                &&& n <= size
                &&& final(req).offset == old(req).offset + n
                &&& old(self).growth_ok(
                    old(disk).image(),
                    old(self).nodes()[old(req).idx as int].clus_list@,
                    final(self).nodes()[old(req).idx as int].clus_list@.skip(old(self).nodes()[old(req).idx as int].clus_list@.len() as int),
                )
                &&& exists|ranges: Seq<(u64, u64)>|
                    old(self).range_plan(old(disk).image(), *final(self), old(req).idx, old(req).offset, size, ranges)
                    && total_len(ranges) == n
                    && (ranges.len() == 0 ==> final(self).nodes()[old(req).idx as int].clus_list@ == old(self).nodes()[old(req).idx as int].clus_list@)
                    && (ranges.len() > 0 ==> final(self).nodes()[old(req).idx as int].clus_list@.len() == ({
                        let oldn = old(self).nodes()[old(req).idx as int].clus_list@.len() as int;
                        let need = range_left(old(req).offset as int, old(self).bytes_per_clus as int) + ranges.len();
                        if oldn >= need { oldn } else { need }
                    }))
                    && final(disk).image() == #[trigger] scatter(
                        old(self).grown_image(
                            old(disk).image(),
                            old(self).nodes()[old(req).idx as int].clus_list@,
                            final(self).nodes()[old(req).idx as int].clus_list@.skip(old(self).nodes()[old(req).idx as int].clus_list@.len() as int),
                        ),
                        ranges,
                        buf@,
                    )
            },
    {
        let ranges = self.file_range(disk, req, size)?;
        let ghost mid = disk.image();
        let ghost bpc = self.bytes_per_clus as int;
        let ghost off = req.offset as int;
        let mut done: usize = 0;
        let mut k: usize = 0;
        while k < ranges.len()
            invariant
                k <= ranges@.len(),
                done as int == size - seg_remaining(off, size as int, bpc, k as nat),
                done <= size,
                done as int == total_len(ranges@.take(k as int)),
                disk.image() == scatter(mid, ranges@.take(k as int), buf@),
            decreases ranges@.len() - k,
        {
            let (start, end) = ranges[k];
            proof {
                lemma_seg_remaining(off, size as int, bpc, k as nat);
            }
            let length = (end - start) as usize;
            let part = slice_bytes(buf, done, done + length);
            disk.seek(start);
            match disk.write(&part) {
                Ok(_) => {},
                Err(_) => return Err(FsError::Io),
            }
            assert(ranges@.take(k + 1).drop_last() =~= ranges@.take(k as int));
            done = done + length;
            k = k + 1;
        }
        assert(ranges@.take(ranges@.len() as int) =~= ranges@);
        let ghost witness = ranges@;
        match req.offset.checked_add(done) {
            Some(v) => {
                req.offset = v;
            },
            None => return Err(FsError::InvalidInput),
        }
        Ok(done)
    }
}

/// The short entry written for a new file whose leaf is a short name reads
/// back as that name, for leaves without spaces whose dot, if any, is
/// followed by an extension.
pub proof fn lemma_created_entry_shows_leaf(
    e: Seq<u8>,
    leaf: Seq<char>,
    attr: u8,
    tenth: u8,
    ctime: u16,
    cdate: u16,
    lacc: u16,
    first: u32,
    wtime: u16,
    wdate: u16,
    size: u32,
)
    requires
        valid_short_name(leaf),
        forall|i: int| 0 <= i < leaf.len() ==> #[trigger] leaf[i] != ' ',
        crate::fat::short_name::first_dot(leaf) < leaf.len() ==> crate::fat::short_name::ext_part(leaf).len() > 0,
        e == short_entry_of(short_field(leaf), attr, nt_res_of(leaf), tenth, ctime, cdate, lacc, first, wtime, wdate, size),
    ensures
        crate::fat::short_name::decode_short(e.subrange(0, 11), e[12]) == leaf,
{
    crate::fat::short_name::lemma_short_name_round_trip(leaf);
    assert(short_field(leaf).len() == 11);
    assert(e.subrange(0, 11) =~= short_field(leaf));
    assert(e[12] == nt_res_of(leaf));
}

} // verus!
