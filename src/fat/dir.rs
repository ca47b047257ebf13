use vstd::prelude::*;

use crate::error::FsError;
use crate::fat::long_name::{
    all_chksums, check_chksums, lemma_long_entries_shape, lemma_long_name_round_trip, long_entries,
    long_entry_count, long_name_from_entries, long_name_of, utf16, ATTR_LONG_NAME,
};
use crate::fat::short_name::{chksum, chksum_of, decode_short, short_display_name};
use crate::fat::FatFs;
use crate::host_ops::FileHandler;

verus! {

/// Bytes of one directory entry.
pub const DIR_BLOCK_SIZE: usize = 0x20;

/// Attribute bit of a directory.
pub const ATTR_DIRECTORY: u8 = 0x10;

/// The 32-byte entry in slot `i` of a directory stream.
pub open spec fn entry_at(d: Seq<u8>, i: int) -> Seq<u8> {
    d.subrange(32 * i, 32 * i + 32)
}

/// The Unicode upper case of a string.
pub uninterp spec fn upper_of(s: Seq<char>) -> Seq<char>;

/// Relies on `str::to_uppercase`: the Unicode upper case of a string, which
/// depends on its characters alone.
#[verifier::external_body]
fn to_upper_case(s: &Vec<char>) -> (r: Vec<char>)
    ensures
        r@ == upper_of(s@),
{
    let t: String = s.iter().collect();
    t.to_uppercase().chars().collect()
}

/// Whether two names are equal once upper-cased.
pub open spec fn names_match(a: Seq<char>, b: Seq<char>) -> bool {
    upper_of(a) == upper_of(b)
}

/// Scans a directory stream from slot `i`, with the long entries `acc` seen
/// just before it. Free (0x00) and deleted (0xE5) slots, and short entries
/// whose name starts with 0x05, are skipped and drop the long entries gathered
/// (a long entry whose ordinal is 5 is still read as one); a short entry matches by its long name when
/// long entries precede it, else (or when that differs) by its 8.3 name.
/// The result is the matching slot, -1 when none matches, or -2 when the
/// long name matches but a checksum disagrees with the short entry.
pub open spec fn scan_from(d: Seq<u8>, name: Seq<char>, i: nat, acc: Seq<u8>) -> int
    decreases d.len() - 32 * i,
{
    if 32 * i + 32 > d.len() {
        -1
    } else {
        let e = entry_at(d, i as int);
        if e[0] == 0x00 || e[0] == 0xE5 || (e[0] == 0x05 && e[11] != ATTR_LONG_NAME) {
            scan_from(d, name, i + 1, Seq::empty())
        } else if e[11] == ATTR_LONG_NAME {
            scan_from(d, name, i + 1, acc + e)
        } else if acc.len() > 0 && names_match(long_name_of(acc), name) {
            if all_chksums(acc, chksum_of(e.subrange(0, 11))) {
                i as int
            } else {
                -2
            }
        } else if names_match(decode_short(e.subrange(0, 11), e[12]), name) {
            i as int
        } else {
            scan_from(d, name, i + 1, Seq::empty())
        }
    }
}

/// The outcome of looking `name` up in a directory stream.
pub open spec fn scan(d: Seq<u8>, name: Seq<char>) -> int {
    scan_from(d, name, 0, Seq::empty())
}

/// Whether two names are equal once upper-cased.
pub fn names_equal(a: &Vec<char>, b: &Vec<char>) -> (r: bool)
    ensures
        r == names_match(a@, b@),
{
    let ua = to_upper_case(a);
    let ub = to_upper_case(b);
    if ua.len() != ub.len() {
        assert(ua@.len() != ub@.len());
        return false;
    }
    let mut i: usize = 0;
    while i < ua.len()
        invariant
            i <= ua@.len(),
            ua@.len() == ub@.len(),
            ua@ == upper_of(a@),
            ub@ == upper_of(b@),
            forall|k: int| 0 <= k < i ==> ua@[k] == ub@[k],
        decreases ua@.len() - i,
    {
        if ua[i] != ub[i] {
            assert(ua@[i as int] != ub@[i as int]);
            return false;
        }
        i = i + 1;
    }
    assert(ua@ =~= ub@);
    true
}

/// A copy of `v`.
pub fn copy_vec<T: Copy>(v: &Vec<T>) -> (r: Vec<T>)
    ensures
        r@ == v@,
{
    let mut r: Vec<T> = Vec::new();
    let mut i: usize = 0;
    while i < v.len()
        invariant
            i <= v@.len(),
            r@ == v@.take(i as int),
        decreases v@.len() - i,
    {
        r.push(v[i]);
        i = i + 1;
        assert(r@ =~= v@.take(i as int));
    }
    assert(v@.take(v@.len() as int) =~= v@);
    r
}

/// The bytes `d[lo..hi]`.
pub fn slice_bytes(d: &Vec<u8>, lo: usize, hi: usize) -> (r: Vec<u8>)
    requires
        lo <= hi <= d@.len(),
    ensures
        r@ == d@.subrange(lo as int, hi as int),
{
    let mut r: Vec<u8> = Vec::new();
    let mut i = lo;
    while i < hi
        invariant
            lo <= i <= hi <= d@.len(),
            r@ == d@.subrange(lo as int, i as int),
        decreases hi - i,
    {
        r.push(d[i]);
        i = i + 1;
        assert(r@ =~= d@.subrange(lo as int, i as int));
    }
    r
}

/// Appends `b` to `out`.
pub fn append_bytes(out: &mut Vec<u8>, b: &Vec<u8>)
    ensures
        final(out)@ == old(out)@ + b@,
{
    let mut i: usize = 0;
    while i < b.len()
        invariant
            i <= b@.len(),
            out@ == old(out)@ + b@.take(i as int),
        decreases b@.len() - i,
    {
        out.push(b[i]);
        i = i + 1;
        assert(out@ =~= old(out)@ + b@.take(i as int));
    }
    assert(b@.take(b@.len() as int) =~= b@);
}

/// Looks `name` up in a directory stream (see `scan`): the slot of its short
/// entry, `NotFound`, or `InvalidData` on a checksum mismatch.
pub fn find_entry(d: &Vec<u8>, name: &Vec<char>) -> (r: Result<usize, FsError>)
    ensures
        r matches Ok(i) ==> scan(d@, name@) == i && 32 * i + 32 <= d@.len(),
        r == Err::<usize, FsError>(FsError::NotFound) <==> scan(d@, name@) == -1,
        r == Err::<usize, FsError>(FsError::InvalidData) <==> scan(d@, name@) == -2,
        r is Ok || r == Err::<usize, FsError>(FsError::NotFound) || r == Err::<usize, FsError>(
            FsError::InvalidData,
        ),
{
    let mut acc: Vec<u8> = Vec::new();
    let mut i: usize = 0;
    let n = d.len() / 32;
    assert(32 * n <= d.len());
    while i < n
        invariant
            i <= n,
            n == d@.len() / 32,
            32 * n <= d.len(),
            acc@.len() % 32 == 0,
            scan(d@, name@) == scan_from(d@, name@, i as nat, acc@),
        decreases n - i,
    {
        let e = slice_bytes(d, 32 * i, 32 * i + 32);
        assert(e@ == entry_at(d@, i as int));
        if e[0] == 0x00 || e[0] == 0xE5 || (e[0] == 0x05 && e[11] != ATTR_LONG_NAME) {
            acc = Vec::new();
        } else if e[11] == ATTR_LONG_NAME {
            append_bytes(&mut acc, &e);
        } else {
            let mut matched_long = false;
            if acc.len() > 0 {
                let ln = long_name_from_entries(&acc);
                matched_long = names_equal(&ln, name);
            }
            if matched_long {
                let field = slice_bytes(&e, 0, 11);
                if check_chksums(&acc, chksum(&field)) {
                    return Ok(i);
                } else {
                    return Err(FsError::InvalidData);
                }
            }
            let field = slice_bytes(&e, 0, 11);
            let shown = short_display_name(&field, e[12]);
            if names_equal(&shown, name) {
                return Ok(i);
            }
            acc = Vec::new();
        }
        i = i + 1;
    }
    Err(FsError::NotFound)
}

impl FatFs {
    /// The bytes of the clusters of `chain`, in order.
    pub open spec fn stream_of(&self, img: Seq<u8>, chain: Seq<u32>) -> Seq<u8>
        decreases chain.len(),
    {
        if chain.len() == 0 {
            Seq::empty()
        } else {
            let p = self.cluster_pos(chain.last() as int);
            self.stream_of(img, chain.drop_last()) + img.subrange(p, p + self.bytes_per_clus)
        }
    }

    /// Engines with the same cluster layout read the same directory stream.
    pub proof fn lemma_stream_same_layout(&self, other: &FatFs, img: Seq<u8>, chain: Seq<u32>)
        requires
            self.bytes_per_clus == other.bytes_per_clus,
            self.sec_per_clus == other.sec_per_clus,
            self.data_start == other.data_start,
            self.bytes_per_sec == other.bytes_per_sec,
        ensures
            self.stream_of(img, chain) == other.stream_of(img, chain),
        decreases chain.len(),
    {
        if chain.len() > 0 {
            self.lemma_stream_same_layout(other, img, chain.drop_last());
        }
    }

    /// Sector of the first byte of cluster `clus`; clusters below 2 are invalid.
    pub fn to_sector_cnt(&self, clus: u32) -> (r: Result<u64, FsError>)
        requires
            self.wf(),
        ensures
            clus < 2 <==> r == Err::<u64, FsError>(FsError::InvalidInput),
            clus >= 2 ==> r is Ok,
            r matches Ok(s) ==> s * self.sector_bytes() == self.cluster_pos(clus as int) && s
                < 0x1000_0000_0000,
    {
        if clus < 2 {
            return Err(FsError::InvalidInput);
        }
        assert((clus - 2) as u64 * self.sec_per_clus <= 0x1_0000_0000 * 128) by (nonlinear_arith)
            requires
                2 <= clus <= 0xFFFF_FFFF,
                self.sec_per_clus <= 128,
        ;
        assert(self.num_fats * self.fat_size <= 255 * 0xFFFF_FFFF) by (nonlinear_arith)
            requires
                self.num_fats <= 255,
                self.fat_size <= 0xFFFF_FFFF,
        ;
        Ok((clus - 2) as u64 * self.sec_per_clus + self.data_start)
    }

    /// Byte offset of the first byte of cluster `clus`.
    pub fn to_byte_cnt(&self, clus: u32) -> (r: Result<u64, FsError>)
        requires
            self.wf(),
        ensures
            clus < 2 <==> r == Err::<u64, FsError>(FsError::InvalidInput),
            clus >= 2 ==> r is Ok,
            r matches Ok(p) ==> p == self.cluster_pos(clus as int) && p < 0x100_0000_0000_0000,
    {
        let s = self.to_sector_cnt(clus)?;
        assert(s * self.bytes_per_sec < 0x100_0000_0000_0000) by (nonlinear_arith)
            requires
                s < 0x1000_0000_0000,
                self.bytes_per_sec <= 4096,
        ;
        Ok(s * self.bytes_per_sec)
    }

    /// Reads every cluster of `chain` (see `stream_of`).
    pub fn read_dir_stream<D: FileHandler>(&self, disk: &mut D, chain: &Vec<u32>) -> (r: Result<Vec<u8>, FsError>)
        requires
            self.wf(),
            chain@.len() <= 0x1000,
        ensures
            final(disk).image() == old(disk).image(),
            r matches Ok(d) ==> d@ == self.stream_of(old(disk).image(), chain@) && d@.len() == chain@.len() * self.cluster_bytes(),
            r matches Err(e) ==> e == FsError::InvalidData || e == FsError::Io,
    {
        let ghost img = disk.image();
        let mut out: Vec<u8> = Vec::new();
        let mut k: usize = 0;
        let bpc = self.bytes_per_clus as usize;
        assert(chain@.take(0) =~= Seq::<u32>::empty());
        assert(self.stream_of(img, chain@.take(0)) == Seq::<u8>::empty());
        assert(out@.len() == 0 * self.bytes_per_clus);
        while k < chain.len()
            invariant
                self.wf(),
                bpc == self.bytes_per_clus,
                img == old(disk).image(),
                disk.image() == img,
                k <= chain@.len() <= 0x1000,
                out@ == self.stream_of(img, chain@.take(k as int)),
                out@.len() == k * self.bytes_per_clus,
            decreases chain@.len() - k,
        {
            let pos = match self.to_byte_cnt(chain[k]) {
                Ok(p) => p,
                Err(_) => return Err(FsError::InvalidData),
            };
            let mut buf: Vec<u8> = vec![0u8; bpc];
            disk.seek(pos);
            match disk.read(&mut buf) {
                Ok(_) => {},
                Err(_) => return Err(FsError::Io),
            }
            let ghost before = out@;
            append_bytes(&mut out, &buf);
            assert(chain@.take(k + 1).drop_last() =~= chain@.take(k as int));
            k = k + 1;
            assert(out@.len() == k * self.bytes_per_clus) by (nonlinear_arith)
                requires
                    out@.len() == before.len() + bpc,
                    before.len() == (k - 1) * self.bytes_per_clus,
                    bpc == self.bytes_per_clus,
            ;
        }
        assert(chain@.take(chain@.len() as int) =~= chain@);
        Ok(out)
    }
}

/// A slot that a scan returns holds a live short entry.
pub proof fn lemma_scan_result_live(d: Seq<u8>, name: Seq<char>, k: nat, acc: Seq<u8>)
    ensures
        scan_from(d, name, k, acc) >= 0 ==> {
            let r = scan_from(d, name, k, acc);
            let e = entry_at(d, r);
            &&& k <= r
            &&& 32 * r + 32 <= d.len()
            &&& e[0] != 0x00 && e[0] != 0xE5 && e[0] != 0x05
            &&& e[11] != ATTR_LONG_NAME
        },
    decreases d.len() - 32 * k,
{
    if 32 * k + 32 <= d.len() {
        let e = entry_at(d, k as int);
        if e[0] == 0x00 || e[0] == 0xE5 || (e[0] == 0x05 && e[11] != ATTR_LONG_NAME) {
            lemma_scan_result_live(d, name, k + 1, Seq::empty());
        } else if e[11] == ATTR_LONG_NAME {
            lemma_scan_result_live(d, name, k + 1, acc + e);
        } else {
            lemma_scan_result_live(d, name, k + 1, Seq::empty());
        }
    }
}

/// Once the first byte of a slot is set to 0xE5, no lookup finds that slot.
pub proof fn lemma_tombstoned_slot_never_found(d: Seq<u8>, name: Seq<char>, i: int)
    requires
        0 <= i,
        32 * i + 32 <= d.len(),
    ensures
        scan(d.update(32 * i, 0xE5u8), name) != i,
{
    let d2 = d.update(32 * i, 0xE5u8);
    lemma_scan_result_live(d2, name, 0, Seq::empty());
    assert(entry_at(d2, i)[0] == 0xE5);
}

/// Scans that start at slot `k` agree on streams that agree from slot `k` on.
proof fn lemma_scan_same_tail(d1: Seq<u8>, d2: Seq<u8>, name: Seq<char>, k: nat, acc: Seq<u8>)
    requires
        d1.len() == d2.len(),
        forall|x: int| 32 * k <= x < d1.len() ==> #[trigger] d1[x] == d2[x],
    ensures
        scan_from(d1, name, k, acc) == scan_from(d2, name, k, acc),
    decreases d1.len() - 32 * k,
{
    if 32 * k + 32 <= d1.len() {
        assert(entry_at(d1, k as int) =~= entry_at(d2, k as int));
        let e = entry_at(d1, k as int);
        if e[0] == 0x00 || e[0] == 0xE5 || (e[0] == 0x05 && e[11] != ATTR_LONG_NAME) {
            lemma_scan_same_tail(d1, d2, name, k + 1, Seq::empty());
        } else if e[11] == ATTR_LONG_NAME {
            lemma_scan_same_tail(d1, d2, name, k + 1, acc + e);
        } else {
            lemma_scan_same_tail(d1, d2, name, k + 1, Seq::empty());
        }
    }
}

/// From slot `k` up to the slot `i` a scan returns, tombstoning slot `i`
/// makes the scan go on from the slot after it.
proof fn lemma_scan_past_tombstone(d: Seq<u8>, name: Seq<char>, i: int, k: nat, acc: Seq<u8>)
    requires
        k <= i,
        scan_from(d, name, k, acc) == i,
        32 * i + 32 <= d.len(),
    ensures
        scan_from(d.update(32 * i, 0xE5u8), name, k, acc) == scan_from(d, name, (i + 1) as nat, Seq::empty()),
    decreases i - k,
{
    let d2 = d.update(32 * i, 0xE5u8);
    let e = entry_at(d, k as int);
    if k < i {
        assert(entry_at(d2, k as int) =~= e);
        if e[0] == 0x00 || e[0] == 0xE5 || (e[0] == 0x05 && e[11] != ATTR_LONG_NAME) {
            lemma_scan_past_tombstone(d, name, i, k + 1, Seq::empty());
        } else if e[11] == ATTR_LONG_NAME {
            lemma_scan_past_tombstone(d, name, i, k + 1, acc + e);
        } else {
            lemma_scan_past_tombstone(d, name, i, k + 1, Seq::empty());
        }
    } else {
        assert(entry_at(d2, i)[0] == 0xE5);
        lemma_scan_same_tail(d2, d, name, (i + 1) as nat, Seq::empty());
    }
}

/// Once the first byte of the entry a lookup finds is set to 0xE5, the same
/// lookup gives what the entries after it give: not found unless a later
/// entry has the name.
pub proof fn lemma_lookup_after_delete(d: Seq<u8>, name: Seq<char>)
    requires
        scan(d, name) >= 0,
    ensures
        ({
            let i = scan(d, name);
            scan(d.update(32 * i, 0xE5u8), name) == scan_from(d, name, (i + 1) as nat, Seq::empty())
        }),
{
    lemma_scan_result_live(d, name, 0, Seq::empty());
    lemma_scan_past_tombstone(d, name, scan(d, name), 0, Seq::empty());
}

/// A long name's entries, followed by its short entry, are found again by a
/// lookup of that name that starts at the first of them: the lookup returns
/// the slot of the short entry. (Names without NUL.)
pub proof fn lemma_written_long_name_found(d: Seq<u8>, name: Seq<char>, k: int, short: Seq<u8>)
    requires
        0 <= k,
        utf16(name).len() <= 255,
        forall|i: int| 0 <= i < name.len() ==> #[trigger] name[i] != '\0',
        short.len() == 32,
        short[11] != ATTR_LONG_NAME,
        short[0] != 0x00 && short[0] != 0xE5 && short[0] != 0x05,
        32 * (k + long_entry_count(name)) + 32 <= d.len(),
        d.subrange(32 * k, 32 * (k + long_entry_count(name))) == long_entries(name, chksum_of(short.subrange(0, 11))),
        entry_at(d, k + long_entry_count(name)) == short,
    ensures
        scan_from(d, name, k as nat, Seq::empty()) == k + long_entry_count(name),
{
    let m = long_entry_count(name) as int;
    let chk = chksum_of(short.subrange(0, 11));
    let l = long_entries(name, chk);
    lemma_long_entries_shape(name, chk);
    lemma_long_name_round_trip(name, chk);
    lemma_found_from(d, name, k, short, m);
    assert(l.take(0) =~= Seq::<u8>::empty());
}

proof fn lemma_found_from(d: Seq<u8>, name: Seq<char>, k: int, short: Seq<u8>, j: int)
    requires
        0 <= k,
        0 <= j <= long_entry_count(name),
        short.len() == 32,
        short[11] != ATTR_LONG_NAME,
        short[0] != 0x00 && short[0] != 0xE5 && short[0] != 0x05,
        32 * (k + long_entry_count(name)) + 32 <= d.len(),
        d.subrange(32 * k, 32 * (k + long_entry_count(name))) == long_entries(name, chksum_of(short.subrange(0, 11))),
        entry_at(d, k + long_entry_count(name)) == short,
        long_entries(name, chksum_of(short.subrange(0, 11))).len() == 32 * long_entry_count(name),
        1 <= long_entry_count(name),
        long_name_of(long_entries(name, chksum_of(short.subrange(0, 11)))) == name,
        all_chksums(long_entries(name, chksum_of(short.subrange(0, 11))), chksum_of(short.subrange(0, 11))),
        forall|x: int| 0 <= x < long_entry_count(name) ==> #[trigger] long_entries(name, chksum_of(short.subrange(0, 11)))[32 * x + 11] == ATTR_LONG_NAME,
        forall|x: int| 0 <= x < long_entry_count(name) ==> {
            let o = #[trigger] long_entries(name, chksum_of(short.subrange(0, 11)))[32 * x];
            o != 0 && o != 0xE5
        },
    ensures
        scan_from(
            d,
            name,
            (k + long_entry_count(name) - j) as nat,
            long_entries(name, chksum_of(short.subrange(0, 11))).take(32 * (long_entry_count(name) - j)),
        ) == k + long_entry_count(name),
    decreases j,
{
    let m = long_entry_count(name) as int;
    let l = long_entries(name, chksum_of(short.subrange(0, 11)));
    let i = k + m - j;
    let acc = l.take(32 * (m - j));
    if j == 0 {
        let e = entry_at(d, i);
        assert(e == short);
        assert(acc =~= l);
        assert(names_match(long_name_of(acc), name));
    } else {
        let x = m - j;
        let e = entry_at(d, i);
        assert forall|t: int| 0 <= t < 32 implies e[t] == l[32 * x + t] by {
            assert(d.subrange(32 * k, 32 * (k + m))[32 * x + t] == d[32 * k + 32 * x + t]);
        }
        assert(e =~= l.subrange(32 * x, 32 * x + 32));
        assert(e[0] == l[32 * x]);
        assert(e[11] == l[32 * x + 11]);
        assert(acc + e =~= l.take(32 * (x + 1)));
        lemma_found_from(d, name, k, short, j - 1);
    }
}

} // verus!
