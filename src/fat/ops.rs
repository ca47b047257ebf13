use vstd::prelude::*;
use vstd::string::StrSliceExecFns;

use crate::bytes::{le16, read_le16, splice};
use crate::error::FsError;
use crate::fat::dir::{copy_vec, entry_at, find_entry, scan, slice_bytes, ATTR_DIRECTORY, DIR_BLOCK_SIZE};
use crate::fat::long_name::{
    alias_field, is_lossy, long_name_valid, make_alias_field, make_numbered_field, numbered_field,
    valid_long_name,
};
use crate::fat::short_name::{check_short_name, decode_short, short_display_name, valid_short_name, ShortName};
use crate::fat::{node_ok, DirInfo, FatFs, FatFsType};
use crate::host_ops::FileHandler;
use crate::vfs::FileType;

verus! {

/// The characters of `s`.
pub fn chars_of(s: &str) -> (r: Vec<char>)
    ensures
        r@ == s@,
{
    let n = s.unicode_len();
    let mut r: Vec<char> = Vec::new();
    let mut i: usize = 0;
    while i < n
        invariant
            i <= n,
            n == s@.len(),
            r@ == s@.take(i as int),
        decreases n - i,
    {
        r.push(s.get_char(i));
        i = i + 1;
        assert(r@ =~= s@.take(i as int));
    }
    assert(s@.take(n as int) =~= s@);
    r
}

/// The non-empty `/`-separated parts of the first `n` characters of a path,
/// and the part being read at `n`.
pub open spec fn split_state(s: Seq<char>, n: nat) -> (Seq<Seq<char>>, Seq<char>)
    decreases n,
{
    if n == 0 {
        (Seq::empty(), Seq::empty())
    } else {
        let (done, cur) = split_state(s, (n - 1) as nat);
        if s[n - 1] == '/' {
            (if cur.len() > 0 {
                done.push(cur)
            } else {
                done
            }, Seq::empty())
        } else {
            (done, cur.push(s[n - 1]))
        }
    }
}

/// The non-empty `/`-separated components of a path.
pub open spec fn path_components(s: Seq<char>) -> Seq<Seq<char>> {
    let (done, cur) = split_state(s, s.len());
    if cur.len() > 0 {
        done.push(cur)
    } else {
        done
    }
}

/// The views of a list of names.
pub open spec fn views(v: Seq<Vec<char>>) -> Seq<Seq<char>> {
    v.map_values(|x: Vec<char>| x@)
}

/// Splits a path into its non-empty components (see `path_components`).
pub fn split_path(path: &Vec<char>) -> (r: Vec<Vec<char>>)
    ensures
        views(r@) == path_components(path@),
{
    let mut done: Vec<Vec<char>> = Vec::new();
    let mut cur: Vec<char> = Vec::new();
    let mut i: usize = 0;
    while i < path.len()
        invariant
            i <= path@.len(),
            (views(done@), cur@) == split_state(path@, i as nat),
        decreases path@.len() - i,
    {
        let c = path[i];
        if c == '/' {
            if cur.len() > 0 {
                let ghost before = done@;
                done.push(cur);
                assert(views(done@) =~= views(before).push(split_state(path@, i as nat).1));
            }
            cur = Vec::new();
        } else {
            cur.push(c);
        }
        i = i + 1;
    }
    if cur.len() > 0 {
        let ghost before = done@;
        let ghost last = cur@;
        done.push(cur);
        assert(views(done@) =~= views(before).push(last));
    }
    done
}

/// Splits a path such as `/p0/dir/file` into its first component and what
/// follows it: the leading slashes are skipped, the component runs up to the
/// next slash, and the rest starts there. `None` when there is no component.
pub fn split_first_component(path: &Vec<char>) -> (r: Option<(Vec<char>, Vec<char>)>)
    ensures
        r is None <==> forall|k: int| 0 <= k < path@.len() ==> #[trigger] path@[k] == '/',
        r matches Some((first, rest)) ==> exists|a: int, b: int| {
            &&& 0 <= a < b <= path@.len()
            &&& (forall|k: int| 0 <= k < a ==> #[trigger] path@[k] == '/')
            &&& (forall|k: int| a <= k < b ==> #[trigger] path@[k] != '/')
            &&& (b == path@.len() || path@[b] == '/')
            &&& first@ == #[trigger] path@.subrange(a, b)
            &&& rest@ == path@.subrange(b, path@.len() as int)
        },
{
    let mut a: usize = 0;
    while a < path.len() && path[a] == '/'
        invariant
            a <= path@.len(),
            forall|k: int| 0 <= k < a ==> #[trigger] path@[k] == '/',
        decreases path@.len() - a,
    {
        a = a + 1;
    }
    if a == path.len() {
        return None;
    }
    let mut b = a;
    while b < path.len() && path[b] != '/'
        invariant
            a <= b <= path@.len(),
            forall|k: int| a <= k < b ==> #[trigger] path@[k] != '/',
        decreases path@.len() - b,
    {
        b = b + 1;
    }
    if b == a {
        assert(path@[a as int] == '/');
        assert(false);
    }
    let first = slice_chars(path, a, b);
    let rest = slice_chars(path, b, path.len());
    assert(first@ == path@.subrange(a as int, b as int));
    Some((first, rest))
}

/// The characters `s[lo..hi]`.
fn slice_chars(s: &Vec<char>, lo: usize, hi: usize) -> (r: Vec<char>)
    requires
        lo <= hi <= s@.len(),
    ensures
        r@ == s@.subrange(lo as int, hi as int),
{
    let mut r: Vec<char> = Vec::new();
    let mut i = lo;
    while i < hi
        invariant
            lo <= i <= hi <= s@.len(),
            r@ == s@.subrange(lo as int, i as int),
        decreases hi - i,
    {
        r.push(s[i]);
        i = i + 1;
        assert(r@ =~= s@.subrange(lo as int, i as int));
    }
    r
}

/// The errors a lookup on disk can end in.
pub open spec fn lookup_error(e: FsError) -> bool {
    e == FsError::OutOfSpace || e == FsError::InvalidData || e == FsError::Io || e == FsError::NotFound
        || e == FsError::Unsupported
}

impl FatFs {
    /// Every field but the node pool.
    pub open spec fn same_geometry(&self, o: &FatFs) -> bool {
        &&& self.fat_size == o.fat_size
        &&& self.tot_sec == o.tot_sec
        &&& self.data_sec == o.data_sec
        &&& self.fat_start == o.fat_start
        &&& self.data_start == o.data_start
        &&& self.max_clus == o.max_clus
        &&& self.top_clus == o.top_clus
        &&& self.bytes_per_clus == o.bytes_per_clus
        &&& self.sec_per_clus == o.sec_per_clus
        &&& self.bytes_per_sec == o.bytes_per_sec
        &&& self.num_fats == o.num_fats
        &&& self.mirrored == o.mirrored
        &&& self.active_fat == o.active_fat
        &&& self.root == o.root
        &&& self.fs_type == o.fs_type
    }

    /// Byte offset of slot `num` of cluster `clus`.
    pub open spec fn slot_pos(&self, clus: int, num: int) -> int {
        self.cluster_pos(clus) + 32 * num
    }

    /// The first cluster recorded in a short entry.
    pub open spec fn entry_first_cluster(e: Seq<u8>) -> int {
        le16(e, 20) * 65536 + le16(e, 26)
    }

    /// Reads the 32-byte entry in slot `num` of cluster `clus`.
    pub fn read_dir_entry<D: FileHandler>(&self, disk: &mut D, clus: u32, num: usize) -> (r: Result<Vec<u8>, FsError>)
        requires
            self.wf(),
            32 * num + 32 <= self.bytes_per_clus,
        ensures
            final(disk).image() == old(disk).image(),
            clus < 2 ==> r == Err::<Vec<u8>, FsError>(FsError::InvalidInput),
            r matches Ok(b) ==> b@ == old(disk).image().subrange(
                self.slot_pos(clus as int, num as int),
                self.slot_pos(clus as int, num as int) + 32,
            ) && b@.len() == 32 && 0 <= self.slot_pos(clus as int, num as int) && self.slot_pos(clus as int, num as int) + 32 <= old(disk).image().len(),
    {
        let base = self.to_byte_cnt(clus)?;
        let position = base + (num as u64) * 32;
        let mut buf: Vec<u8> = vec![0u8; DIR_BLOCK_SIZE];
        disk.seek(position);
        match disk.read(&mut buf) {
            Ok(_) => Ok(buf),
            Err(_) => Err(FsError::Io),
        }
    }

    /// Writes a 32-byte entry into slot `num` of cluster `clus`.
    pub fn write_dir_entry<D: FileHandler>(&self, disk: &mut D, clus: u32, num: usize, buf: &Vec<u8>) -> (r: Result<(), FsError>)
        requires
            self.wf(),
            32 * num + 32 <= self.bytes_per_clus,
            buf@.len() == 32,
        ensures
            clus < 2 ==> r == Err::<(), FsError>(FsError::InvalidInput),
            r matches Err(e) ==> e == FsError::InvalidInput ==> final(disk).image() == old(disk).image(),
            r is Ok ==> final(disk).image() == splice(old(disk).image(), self.slot_pos(clus as int, num as int), buf@)
                && 0 <= self.slot_pos(clus as int, num as int) && self.slot_pos(clus as int, num as int) + 32 <= old(disk).image().len(),
    {
        let base = self.to_byte_cnt(clus)?;
        let position = base + (num as u64) * 32;
        disk.seek(position);
        match disk.write(buf) {
            Ok(_) => Ok(()),
            Err(_) => Err(FsError::Io),
        }
    }

    /// Looks `name` up in the directory at pool index `dir_idx` and adds a
    /// node for the entry found: its slot, its cluster chain, and a link from
    /// the directory.
    pub fn search_in_dir<D: FileHandler>(&mut self, disk: &mut D, dir_idx: usize, name: &Vec<char>) -> (r: Result<usize, FsError>)
        requires
            old(self).wf(),
            dir_idx < old(self).nodes().len(),
        ensures
            final(self).wf(),
            final(self).same_geometry(old(self)),
            final(disk).image() == old(disk).image(),
            r is Err ==> final(self).nodes() == old(self).nodes(),
            r matches Err(e) ==> lookup_error(e),
            old(self).nodes().len() >= 0xFFFF_FFFE ==> r == Err::<usize, FsError>(FsError::OutOfSpace),
            old(self).nodes().len() < 0xFFFF_FFFE && old(self).nodes()[dir_idx as int].clus_list@.len() > 0x1000
                ==> r == Err::<usize, FsError>(FsError::InvalidData),
            r matches Ok(idx) ==> {
                let d = old(self).stream_of(old(disk).image(), old(self).nodes()[dir_idx as int].clus_list@);
                let k = scan(d, name@);
                let node = final(self).nodes()[idx as int];
                &&& k >= 0
                &&& idx == old(self).nodes().len()
                &&& final(self).nodes().len() == idx + 1
                &&& node.name@ == name@
                &&& node.parent == dir_idx
                &&& node.idx == idx
                &&& node.offset == k
                &&& (node.clus_list@.len() == 0 && FatFs::entry_first_cluster(entry_at(d, k)) == 0
                    || old(self).is_chain(old(disk).image(), node.clus_list@) && node.clus_list@[0]
                    == FatFs::entry_first_cluster(entry_at(d, k)))
                &&& final(self).nodes()[dir_idx as int].children@ == old(self).nodes()[dir_idx as int].children@.push(idx)
                &&& final(self).nodes()[dir_idx as int].clus_list@ == old(self).nodes()[dir_idx as int].clus_list@
                &&& final(self).nodes()[dir_idx as int].name@ == old(self).nodes()[dir_idx as int].name@
                &&& final(self).nodes()[dir_idx as int].ftype == old(self).nodes()[dir_idx as int].ftype
                &&& final(self).nodes()[dir_idx as int].parent == old(self).nodes()[dir_idx as int].parent
                &&& final(self).nodes()[dir_idx as int].offset == old(self).nodes()[dir_idx as int].offset
                &&& final(self).nodes()[dir_idx as int].idx == old(self).nodes()[dir_idx as int].idx
                &&& forall|i: int| 0 <= i < old(self).nodes().len() && i != dir_idx ==> final(self).nodes()[i] == old(self).nodes()[i]
            },
            r == Err::<usize, FsError>(FsError::NotFound) ==> scan(
                old(self).stream_of(old(disk).image(), old(self).nodes()[dir_idx as int].clus_list@),
                name@,
            ) == -1,
    {
        if self.cache.len() >= 0xFFFF_FFFE {
            return Err(FsError::OutOfSpace);
        }
        let ghost img = disk.image();
        let d = {
            let dir = self.cache.read(dir_idx);
            if dir.clus_list.len() > 0x1000 {
                return Err(FsError::InvalidData);
            }
            match self.read_dir_stream(disk, &dir.clus_list) {
                Ok(d) => d,
                Err(e) => return Err(e),
            }
        };
        assert(d@.len() <= 0x1000 * 0x80000) by (nonlinear_arith)
            requires
                d@.len() == self.cache.slots()[dir_idx as int].clus_list@.len() * self.bytes_per_clus,
                self.cache.slots()[dir_idx as int].clus_list@.len() <= 0x1000,
                self.bytes_per_clus <= 0x80000,
        ;
        let k = match find_entry(&d, name) {
            Ok(k) => k,
            Err(e) => return Err(e),
        };
        let e = slice_bytes(&d, 32 * k, 32 * k + 32);
        assert(e@ == entry_at(d@, k as int));
        let first: u32 = read_le16(&e, 20) as u32 * 65536 + read_le16(&e, 26) as u32;
        let clus_list: Vec<u32> = if first == 0 {
            Vec::new()
        } else {
            match self.get_all_clus(disk, first) {
                Ok(l) => l,
                Err(e) => return Err(e),
            }
        };
        let ftype = if e[11] & ATTR_DIRECTORY != 0 {
            FileType::Dir
        } else {
            FileType::File
        };
        assert(k < 0x1_0000_0000) by (nonlinear_arith)
            requires
                32 * k + 32 <= d@.len(),
                d@.len() <= 0x1000 * 0x80000,
        ;
        let node = DirInfo {
            name: copy_vec(name),
            ftype,
            parent: dir_idx,
            idx: 0,
            children: Vec::new(),
            offset: k as u32,
            clus_list,
        };
        let newdir = {
            let dir = self.cache.read(dir_idx);
            DirInfo {
                name: copy_vec(&dir.name),
                ftype: dir.ftype,
                parent: dir.parent,
                idx: dir.idx,
                children: copy_vec(&dir.children),
                offset: dir.offset,
                clus_list: copy_vec(&dir.clus_list),
            }
        };
        let ghost old_nodes = self.cache.slots();
        let idx = self.cache.append(node);
        let mut newdir = newdir;
        newdir.children.push(idx);
        self.cache.update(dir_idx, newdir);
        proof {
            let n = self.cache.slots().len() as int;
            assert forall|i: int| 0 <= i < n implies node_ok(#[trigger] self.cache.slots()[i], n) by {
                if i != idx as int && i != dir_idx as int {
                    assert(self.cache.slots()[i] == old_nodes[i]);
                    assert(node_ok(old_nodes[i], n - 1));
                } else if i == dir_idx as int {
                    assert(node_ok(old_nodes[i], n - 1));
                }
            }
        }
        Ok(idx)
    }
}

/// How a file name is stored.
#[derive(Clone, Copy, Debug, PartialEq, Eq, Structural)]
pub enum FileNameType {
    LongName,
    ShortName,
}

/// Whether slot `j` of a directory stream holds a live short entry named by `f`.
pub open spec fn slot_has_field(d: Seq<u8>, j: int, f: Seq<u8>) -> bool {
    let e = entry_at(d, j);
    &&& e[0] != 0x00
    &&& e[0] != 0xE5
    &&& e[11] != 0x0f
    &&& e.subrange(0, 11) == f
}

/// Whether a live short entry of the directory stream is named by `f`.
pub open spec fn field_taken(d: Seq<u8>, f: Seq<u8>) -> bool {
    exists|j: int| 0 <= j < d.len() / 32 && #[trigger] slot_has_field(d, j, f)
}

/// Whether the first alias field of a long name can be used as it is.
pub open spec fn plain_alias_ok(d: Seq<u8>, name: Seq<char>) -> bool {
    &&& !is_lossy(name)
    &&& valid_short_name(decode_short(alias_field(name), 0))
    &&& !field_taken(d, alias_field(name))
}

/// Whether `f` is the field a long name gets in a directory: its first alias
/// when that is usable, else the first `~n` form (n from 1) not taken.
pub open spec fn chosen_alias(d: Seq<u8>, name: Seq<char>, f: Seq<u8>) -> bool {
    if plain_alias_ok(d, name) {
        f == alias_field(name)
    } else {
        exists|n: int|
            1 <= n <= 999999 && f == #[trigger] numbered_field(alias_field(name), n as nat) && !field_taken(d, f)
                && forall|m: int| 1 <= m < n ==> field_taken(d, #[trigger] numbered_field(alias_field(name), m as nat))
    }
}

/// Whether a live short entry of `d` is named by `f` (see `field_taken`).
pub fn field_taken_in(d: &Vec<u8>, f: &Vec<u8>) -> (r: bool)
    requires
        f@.len() == 11,
    ensures
        r == field_taken(d@, f@),
{
    let n = d.len() / 32;
    assert(32 * n <= d.len());
    let mut j: usize = 0;
    while j < n
        invariant
            j <= n,
            n == d@.len() / 32,
            32 * n <= d.len(),
            f@.len() == 11,
            forall|k: int| 0 <= k < j ==> !slot_has_field(d@, k, f@),
        decreases n - j,
    {
        let b = 32 * j;
        if d[b] != 0x00 && d[b] != 0xE5 && d[b + 11] != 0x0f {
            let mut same = true;
            let mut t: usize = 0;
            while t < 11
                invariant
                    t <= 11,
                    b + 32 <= d.len(),
                    f@.len() == 11,
                    same == forall|x: int| 0 <= x < t ==> d@[b + x] == f@[x],
                decreases 11 - t,
            {
                if d[b + t] != f[t] {
                    same = false;
                }
                t = t + 1;
            }
            if same {
                assert(entry_at(d@, j as int).subrange(0, 11) =~= f@);
                assert(slot_has_field(d@, j as int, f@));
                return true;
            } else {
                assert forall|x: int| 0 <= x < 11 && d@[b + x] != f@[x] implies !slot_has_field(d@, j as int, f@) by {
                    assert(entry_at(d@, j as int).subrange(0, 11)[x] == d@[b + x]);
                }
                let ghost x = choose|x: int| 0 <= x < 11 && d@[b + x] != f@[x];
                assert(!slot_has_field(d@, j as int, f@));
            }
        }
        j = j + 1;
    }
    false
}

impl FatFs {
    /// Whether `name` can be stored as an 8.3 short name.
    pub fn check_short_name(&self, name: &Vec<char>) -> (r: bool)
        ensures
            r == valid_short_name(name@),
    {
        check_short_name(name)
    }

    /// Whether `name` can be stored as a long name: only on FAT32.
    pub fn check_long_name(&self, name: &Vec<char>) -> (r: bool)
        ensures
            r == (self.variant() == FatFsType::FAT32 && valid_long_name(name@)),
    {
        if self.fs_type != FatFsType::FAT32 {
            return false;
        }
        long_name_valid(name)
    }

    /// A short name when `name` is one, else a long name when FAT32 takes it.
    pub fn check_name(&self, name: &Vec<char>) -> (r: Result<FileNameType, FsError>)
        ensures
            valid_short_name(name@) ==> r == Ok::<FileNameType, FsError>(FileNameType::ShortName),
            !valid_short_name(name@) && self.variant() == FatFsType::FAT32 && valid_long_name(name@)
                ==> r == Ok::<FileNameType, FsError>(FileNameType::LongName),
            !valid_short_name(name@) && !(self.variant() == FatFsType::FAT32 && valid_long_name(name@))
                ==> r == Err::<FileNameType, FsError>(FsError::InvalidInput),
    {
        if self.check_short_name(name) {
            Ok(FileNameType::ShortName)
        } else if self.check_long_name(name) {
            Ok(FileNameType::LongName)
        } else {
            Err(FsError::InvalidInput)
        }
    }

    /// Picks the short alias of a long name in the directory at `dir_idx`
    /// (see `choose_alias`). A directory of more than 0x1000 clusters is
    /// refused as `InvalidData`.
    pub fn long_name2short_name<D: FileHandler>(&self, disk: &mut D, dir_idx: usize, long_name: &Vec<char>) -> (r: Result<ShortName, FsError>)
        requires
            self.wf(),
            dir_idx < self.nodes().len(),
        ensures
            final(disk).image() == old(disk).image(),
            self.nodes()[dir_idx as int].clus_list@.len() > 0x1000 ==> r == Err::<ShortName, FsError>(FsError::InvalidData),
            r matches Err(e) ==> e == FsError::InvalidData || e == FsError::Io || e == FsError::AlreadyExists,
            r matches Ok(sn) ==> sn.field@.len() == 11 && chosen_alias(
                self.stream_of(old(disk).image(), self.nodes()[dir_idx as int].clus_list@),
                long_name@,
                sn.field@,
            ),
            r == Err::<ShortName, FsError>(FsError::AlreadyExists) ==> all_aliases_taken(
                self.stream_of(old(disk).image(), self.nodes()[dir_idx as int].clus_list@),
                long_name@,
            ),
            self.nodes()[dir_idx as int].clus_list@.len() <= 0x1000 && all_aliases_taken(
                self.stream_of(old(disk).image(), self.nodes()[dir_idx as int].clus_list@),
                long_name@,
            ) ==> r is Err,
    {
        let chain = &self.cache.read(dir_idx).clus_list;
        if chain.len() > 0x1000 {
            return Err(FsError::InvalidData);
        }
        let d = self.read_dir_stream(disk, chain)?;
        choose_alias(&d, long_name)
    }
}

/// An alias can be chosen only where not every alias is taken.
pub proof fn lemma_chosen_alias_not_all_taken(d: Seq<u8>, name: Seq<char>, f: Seq<u8>)
    requires
        chosen_alias(d, name, f),
    ensures
        !all_aliases_taken(d, name),
{
    if !plain_alias_ok(d, name) {
        let n = choose|n: int|
            1 <= n <= 999999 && f == #[trigger] numbered_field(alias_field(name), n as nat) && !field_taken(d, f)
                && forall|m: int| 1 <= m < n ==> field_taken(d, #[trigger] numbered_field(alias_field(name), m as nat));
        assert(!field_taken(d, numbered_field(alias_field(name), n as nat)));
    }
}

/// Whether neither the first alias of `name` nor any of its `~n` forms is
/// free in the directory stream `d`.
pub open spec fn all_aliases_taken(d: Seq<u8>, name: Seq<char>) -> bool {
    &&& !plain_alias_ok(d, name)
    &&& forall|n: int| 1 <= n <= 999999 ==> field_taken(d, #[trigger] numbered_field(alias_field(name), n as nat))
}

/// The short alias a long name gets in the directory stream `d` (see
/// `chosen_alias`); `AlreadyExists` exactly when every alias is taken.
pub fn choose_alias(d: &Vec<u8>, long_name: &Vec<char>) -> (r: Result<ShortName, FsError>)
    ensures
        r matches Ok(sn) ==> sn.field@.len() == 11 && chosen_alias(d@, long_name@, sn.field@),
        r == Err::<ShortName, FsError>(FsError::AlreadyExists) <==> all_aliases_taken(d@, long_name@),
        r is Ok || r == Err::<ShortName, FsError>(FsError::AlreadyExists),
{
    let ghost dv = d@;
    let (field, lossy) = make_alias_field(long_name);
    if !lossy {
        let shown = short_display_name(&field, 0);
        if check_short_name(&shown) && !field_taken_in(d, &field) {
            return Ok(ShortName { field });
        }
    }
    assert(!plain_alias_ok(dv, long_name@));
    let mut n: u32 = 1;
    while n <= 999999
        invariant
            1 <= n <= 1000000,
            d@ == dv,
            field@ == alias_field(long_name@),
            field@.len() == 11,
            !plain_alias_ok(dv, long_name@),
            forall|m: int| 1 <= m < n ==> field_taken(dv, #[trigger] numbered_field(alias_field(long_name@), m as nat)),
        decreases 1000000 - n,
    {
        let cand = make_numbered_field(&field, n);
        if !field_taken_in(d, &cand) {
            let ghost ni: int = n as int;
            assert(cand@ == numbered_field(alias_field(long_name@), ni as nat));
            assert(chosen_alias(dv, long_name@, cand@));
            assert(!all_aliases_taken(dv, long_name@));
            return Ok(ShortName { field: cand });
        }
        n = n + 1;
    }
    Err(FsError::AlreadyExists)
}

} // verus!
