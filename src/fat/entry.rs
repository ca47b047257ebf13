use vstd::prelude::*;

use crate::bytes::{le16_bytes, le32_bytes, push_le16, push_le32};
use crate::fat::short_name::{nt_res, nt_res_of, ShortName};

verus! {

/// Attribute bit: the entry cannot be written.
pub const ATTR_READ_ONLY: u8 = 0x01;

/// Attribute bit: the entry has changed since it was archived.
pub const ATTR_ARCHIVE: u8 = 0x20;

/// The fields of a 32-byte short directory entry.
pub struct ShortDir {
    pub name: ShortName,
    pub attr: u8,
    pub ntres: u8,
    pub create_time_tenth: u8,
    pub create_time: u16,
    pub create_date: u16,
    pub last_acc_date: u16,
    pub first_clus_hi: u16,
    pub write_time: u16,
    pub write_date: u16,
    pub first_clus_lo: u16,
    pub file_size: u32,
}

/// The 32 bytes of a short entry: name[0..11], attr[11], nt_res[12],
/// tenth[13], then little-endian create time, create date, access date,
/// cluster high half, write time, write date, cluster low half and size.
pub open spec fn short_entry_bytes(s: ShortDir) -> Seq<u8> {
    s.name.field@ + seq![s.attr, s.ntres, s.create_time_tenth] + le16_bytes(s.create_time)
        + le16_bytes(s.create_date) + le16_bytes(s.last_acc_date) + le16_bytes(s.first_clus_hi)
        + le16_bytes(s.write_time) + le16_bytes(s.write_date) + le16_bytes(s.first_clus_lo)
        + le32_bytes(s.file_size)
}

/// The 32 bytes of a short entry named by the field `f` (see `short_entry_bytes`).
pub open spec fn short_entry_of(
    f: Seq<u8>,
    attr: u8,
    ntres: u8,
    tenth: u8,
    ctime: u16,
    cdate: u16,
    lacc: u16,
    first: u32,
    wtime: u16,
    wdate: u16,
    size: u32,
) -> Seq<u8> {
    f + seq![attr, ntres, tenth] + le16_bytes(ctime) + le16_bytes(cdate) + le16_bytes(lacc)
        + le16_bytes((first / 65536) as u16) + le16_bytes(wtime) + le16_bytes(wdate) + le16_bytes(
        (first % 65536) as u16,
    ) + le32_bytes(size)
}

impl ShortDir {
    /// An entry for `full_name` whose NT_RES byte records its case (see `nt_res_of`).
    pub fn new(
        name: ShortName,
        full_name: &Vec<char>,
        attribute: u8,
        ctime_tenth: u8,
        ctime: u16,
        cdate: u16,
        lacc_date: u16,
        first_clus: u32,
        wtime: u16,
        wdate: u16,
        file_size: u32,
    ) -> (r: ShortDir)
        ensures
            r.name == name,
            r.attr == attribute,
            r.ntres == nt_res_of(full_name@),
            r.create_time_tenth == ctime_tenth,
            r.create_time == ctime,
            r.create_date == cdate,
            r.last_acc_date == lacc_date,
            r.first_clus_hi == first_clus / 65536,
            r.first_clus_lo == first_clus % 65536,
            r.write_time == wtime,
            r.write_date == wdate,
            r.file_size == file_size,
    {
        ShortDir {
            name,
            attr: attribute,
            ntres: nt_res(full_name),
            create_time_tenth: ctime_tenth,
            create_time: ctime,
            create_date: cdate,
            last_acc_date: lacc_date,
            first_clus_hi: (first_clus / 65536) as u16,
            write_time: wtime,
            write_date: wdate,
            first_clus_lo: (first_clus % 65536) as u16,
            file_size,
        }
    }

    /// The 32 bytes of the entry (see `short_entry_bytes`).
    pub fn to_bytes(&self) -> (r: Vec<u8>)
        requires
            self.name.field@.len() == 11,
        ensures
            r@ == short_entry_bytes(*self),
            r@.len() == 32,
    {
        let mut b: Vec<u8> = Vec::new();
        let mut i: usize = 0;
        while i < 11
            invariant
                i <= 11,
                self.name.field@.len() == 11,
                b@ == self.name.field@.take(i as int),
            decreases 11 - i,
        {
            b.push(self.name.field[i]);
            i = i + 1;
            assert(b@ =~= self.name.field@.take(i as int));
        }
        assert(self.name.field@.take(11) =~= self.name.field@);
        b.push(self.attr);
        b.push(self.ntres);
        b.push(self.create_time_tenth);
        push_le16(&mut b, self.create_time);
        push_le16(&mut b, self.create_date);
        push_le16(&mut b, self.last_acc_date);
        push_le16(&mut b, self.first_clus_hi);
        push_le16(&mut b, self.write_time);
        push_le16(&mut b, self.write_date);
        push_le16(&mut b, self.first_clus_lo);
        push_le32(&mut b, self.file_size);
        assert(b@ =~= short_entry_bytes(*self));
        b
    }
}

} // verus!
