use vstd::prelude::*;

verus! {

/// A calendar date.
#[derive(Clone, Copy, Debug, PartialEq, Eq, Structural)]
pub struct FatDate {
    pub year: u32,
    pub month: u32,
    pub day: u32,
}

/// A time of day.
#[derive(Clone, Copy, Debug, PartialEq, Eq, Structural)]
pub struct FatTime {
    pub hour: u32,
    pub minute: u32,
    pub second: u32,
    pub nanosecond: u32,
}

/// A date that a FAT date field can hold: 1980 to 2107.
pub open spec fn date_in_range(d: FatDate) -> bool {
    1980 <= d.year <= 2107 && 1 <= d.month <= 12 && 1 <= d.day <= 31
}

/// A time of day; the nanoseconds may run past one second for a leap second.
pub open spec fn time_in_range(t: FatTime) -> bool {
    t.hour < 24 && t.minute < 60 && t.second < 60 && t.nanosecond < 2_000_000_000
}

/// `((year - 1980) << 9) | (month << 5) | day`.
pub open spec fn pack_date(d: FatDate) -> int {
    (d.year - 1980) * 512 + d.month * 32 + d.day
}

/// `(hour << 11) | (minute << 5) | (second / 2)`.
pub open spec fn pack_time(t: FatTime) -> int {
    t.hour * 2048 + t.minute * 32 + t.second / 2
}

pub fn to_fat32_date(date: &FatDate) -> (r: u16)
    requires
        date_in_range(*date),
    ensures
        r == pack_date(*date),
{
    ((date.year - 1980) * 512 + date.month * 32 + date.day) as u16
}

pub fn to_fat32_time(time: &FatTime) -> (r: u16)
    requires
        time_in_range(*time),
    ensures
        r == pack_time(*time),
{
    (time.hour * 2048 + time.minute * 32 + time.second / 2) as u16
}

/// Tenths of a second past the even second (0 to 19).
pub fn to_fat32_time_tenth(time: &FatTime) -> (r: u8)
    requires
        time_in_range(*time),
    ensures
        r == time.nanosecond / 100_000_000,
{
    (time.nanosecond / 100_000_000) as u8
}

/// The date a FAT date field holds.
pub fn from_fat32_date(v: u16) -> (r: FatDate)
    ensures
        r.year == 1980 + v / 512,
        r.month == v / 32 % 16,
        r.day == v % 32,
{
    FatDate { year: 1980 + (v / 512) as u32, month: (v / 32 % 16) as u32, day: (v % 32) as u32 }
}

/// The time a FAT time field holds, to the even second.
pub fn from_fat32_time(v: u16) -> (r: FatTime)
    ensures
        r.hour == v / 2048,
        r.minute == v / 32 % 64,
        r.second == v % 32 * 2,
        r.nanosecond == 0,
{
    FatTime {
        hour: (v / 2048) as u32,
        minute: (v / 32 % 64) as u32,
        second: (v % 32 * 2) as u32,
        nanosecond: 0,
    }
}

/// Packing a date into a FAT date field and reading it back gives the date.
pub proof fn lemma_date_round_trip(d: FatDate)
    requires
        date_in_range(d),
    ensures
        0 <= pack_date(d) < 0x10000,
        ({
            let v = pack_date(d);
            1980 + v / 512 == d.year && v / 32 % 16 == d.month && v % 32 == d.day
        }),
{
    let v = pack_date(d);
    let y = d.year - 1980;
    assert(v == y * 512 + d.month * 32 + d.day);
    assert(v / 512 == y && v / 32 % 16 == d.month && v % 32 == d.day) by (nonlinear_arith)
        requires
            v == y * 512 + d.month * 32 + d.day,
            0 <= y <= 127,
            1 <= d.month <= 12,
            1 <= d.day <= 31,
    ;
}

/// Packing a time into a FAT time field and reading it back gives the time
/// with its second rounded down to even and no fraction.
pub proof fn lemma_time_round_trip(t: FatTime)
    requires
        time_in_range(t),
    ensures
        0 <= pack_time(t) < 0x10000,
        ({
            let v = pack_time(t);
            v / 2048 == t.hour && v / 32 % 64 == t.minute && v % 32 * 2 == t.second - t.second % 2
        }),
{
    let v = pack_time(t);
    let h = t.second / 2;
    assert(v / 2048 == t.hour && v / 32 % 64 == t.minute && v % 32 == h) by (nonlinear_arith)
        requires
            v == t.hour * 2048 + t.minute * 32 + h,
            0 <= t.hour < 24,
            0 <= t.minute < 60,
            0 <= h < 30,
    ;
}

} // verus!
