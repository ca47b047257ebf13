use vstd::prelude::*;


use crate::fat::short_name::{is_ascii_char, padded_upper, to_upper, first_dot, trim_spaces, find_first_dot, upper_char, trimmed_end};

verus! {

/// Attribute byte that marks a long-name entry.
pub const ATTR_LONG_NAME: u8 = 0x0f;

/// Whether `v` is a Unicode scalar value.
pub open spec fn is_scalar(v: u32) -> bool {
    v < 0xD800 || (0xE000 <= v && v <= 0x10FFFF)
}

/// The character whose code is `v`.
pub open spec fn char_of(v: u32) -> char {
    v as char
}

/// The UTF-16 code units of one character.
pub open spec fn utf16_char(c: char) -> Seq<u16> {
    let v = c as u32;
    if v < 0x10000 {
        seq![v as u16]
    } else {
        let w = v - 0x10000;
        seq![(0xD800 + w / 1024) as u16, (0xDC00 + w % 1024) as u16]
    }
}

/// The UTF-16 encoding of a string.
pub open spec fn utf16(s: Seq<char>) -> Seq<u16>
    decreases s.len(),
{
    if s.len() == 0 {
        Seq::empty()
    } else {
        utf16_char(s[0]) + utf16(s.skip(1))
    }
}

/// UTF-16 decoding; an unpaired surrogate becomes U+FFFD.
pub open spec fn utf16_decode(u: Seq<u16>) -> Seq<char>
    decreases u.len(),
{
    if u.len() == 0 {
        Seq::empty()
    } else if 0xD800 <= u[0] < 0xDC00 && u.len() >= 2 && 0xDC00 <= u[1] < 0xE000 {
        seq![char_of((0x10000 + (u[0] - 0xD800) * 1024 + (u[1] - 0xDC00)) as u32)] + utf16_decode(
            u.skip(2),
        )
    } else if 0xD800 <= u[0] < 0xE000 {
        seq!['\u{FFFD}'] + utf16_decode(u.skip(1))
    } else {
        seq![char_of(u[0] as u32)] + utf16_decode(u.skip(1))
    }
}

pub open spec fn is_forbidden_long(c: char) -> bool {
    c == '+' || c == ',' || c == ';' || c == '[' || c == ']'
}

/// A long name: at most 255 UTF-16 code units, none of `+ , ; [ ]`.
pub open spec fn valid_long_name(s: Seq<char>) -> bool {
    &&& utf16(s).len() <= 255
    &&& forall|i: int| 0 <= i < s.len() ==> !is_forbidden_long(#[trigger] s[i])
}

/// The code units stored for a long name: its UTF-16 form, one 0x0000 unit,
/// then 0xFFFF up to a multiple of 13.
pub open spec fn padded_units(s: Seq<char>) -> Seq<u16> {
    let u = utf16(s).push(0u16);
    u + Seq::new((long_entry_count(s) * 13 - u.len()) as nat, |i: int| 0xFFFFu16)
}

/// How many long entries a long name takes.
pub open spec fn long_entry_count(s: Seq<char>) -> nat {
    ((utf16(s).len() + 1 + 12) / 13) as nat
}

/// The little-endian bytes of code units.
pub open spec fn units_bytes(u: Seq<u16>) -> Seq<u8> {
    Seq::new(
        2 * u.len(),
        |i: int|
            if i % 2 == 0 {
                (u[i / 2] % 256) as u8
            } else {
                (u[i / 2] / 256) as u8
            },
    )
}

/// One 32-byte long entry holding 13 code units.
pub open spec fn long_entry(ord: u8, chk: u8, u: Seq<u16>) -> Seq<u8> {
    seq![ord] + units_bytes(u.subrange(0, 5)) + seq![ATTR_LONG_NAME, 0u8, chk] + units_bytes(
        u.subrange(5, 11),
    ) + seq![0u8, 0u8] + units_bytes(u.subrange(11, 13))
}

/// The ordinal of the `k`-th entry of a name in reading order: the entry with
/// the name's tail has 1, the one with its head the highest, with 0x40 set.
pub open spec fn long_ord(m: nat, k: int) -> u8 {
    ((m - k) + (if k == 0 { 0x40int } else { 0 })) as u8
}

/// The long entries from the `j`-th on as they lie on disk: tail first, head last.
pub open spec fn long_entries_from(s: Seq<char>, chk: u8, j: nat) -> Seq<u8>
    decreases long_entry_count(s) - j,
{
    let m = long_entry_count(s);
    if j >= m {
        Seq::empty()
    } else {
        let k = m - 1 - j;
        long_entry(long_ord(m, k), chk, padded_units(s).subrange(13 * k, 13 * k + 13))
            + long_entries_from(s, chk, j + 1)
    }
}

/// All long entries of a name, in disk order.
pub open spec fn long_entries(s: Seq<char>, chk: u8) -> Seq<u8> {
    long_entries_from(s, chk, 0)
}

/// Byte offset within a long entry of its `k`-th code unit.
pub open spec fn unit_offset(k: int) -> int {
    if k < 5 {
        1 + 2 * k
    } else if k < 11 {
        14 + 2 * (k - 5)
    } else {
        28 + 2 * (k - 11)
    }
}

/// The 13 code units that a long entry holds.
pub open spec fn entry_units(e: Seq<u8>) -> Seq<u16> {
    Seq::new(13, |k: int| (e[unit_offset(k)] as int + e[unit_offset(k) + 1] as int * 256) as u16)
}

/// The code units of long entries read in disk order, in name order.
pub open spec fn long_units(acc: Seq<u8>) -> Seq<u16>
    decreases acc.len(),
{
    if acc.len() < 32 {
        Seq::empty()
    } else {
        long_units(acc.subrange(32, acc.len() as int)) + entry_units(acc.subrange(0, 32))
    }
}

/// The code units before the first 0x0000.
pub open spec fn until_nul(u: Seq<u16>) -> Seq<u16>
    decreases u.len(),
{
    if u.len() == 0 || u[0] == 0 {
        Seq::empty()
    } else {
        seq![u[0]] + until_nul(u.skip(1))
    }
}

/// The name that long entries read in disk order spell.
pub open spec fn long_name_of(acc: Seq<u8>) -> Seq<char> {
    utf16_decode(until_nul(long_units(acc)))
}

/// Relies on `char::from_u32`: `Some` exactly for Unicode scalar values, holding that value.
#[verifier::external_body]
fn char_from_code(v: u32) -> (r: Option<char>)
    ensures
        r is Some <==> is_scalar(v),
        r matches Some(c) ==> c as u32 == v,
{
    char::from_u32(v)
}

/// The character of a scalar value.
fn scalar_char(v: u32) -> (r: char)
    requires
        is_scalar(v),
    ensures
        r == char_of(v),
{
    match char_from_code(v) {
        Some(c) => {
            proof {
                vstd::utf8::char_u32_cast(c, v);
            }
            c
        },
        None => '\u{FFFD}',
    }
}

/// Appends the UTF-16 code units of `c`.
pub fn push_utf16(out: &mut Vec<u16>, c: char)
    ensures
        final(out)@ == old(out)@ + utf16_char(c),
{
    let v = c as u32;
    if v < 0x10000 {
        out.push(v as u16);
    } else {
        let w = v - 0x10000;
        out.push((0xD800 + w / 1024) as u16);
        out.push((0xDC00 + w % 1024) as u16);
    }
    assert(final(out)@ =~= old(out)@ + utf16_char(c));
}

/// The UTF-16 encoding of `s`.
pub fn encode_utf16(s: &Vec<char>) -> (r: Vec<u16>)
    ensures
        r@ == utf16(s@),
{
    let mut out: Vec<u16> = Vec::new();
    let mut i: usize = 0;
    assert(s@.skip(0) =~= s@);
    assert(out@ + utf16(s@) =~= utf16(s@));
    while i < s.len()
        invariant
            i <= s@.len(),
            out@ + utf16(s@.skip(i as int)) == utf16(s@),
        decreases s@.len() - i,
    {
        let ghost before = out@;
        push_utf16(&mut out, s[i]);
        assert(s@.skip(i as int).skip(1) =~= s@.skip(i + 1));
        assert(utf16(s@.skip(i as int)) == utf16_char(s@[i as int]) + utf16(s@.skip(i + 1)));
        assert(out@ + utf16(s@.skip(i + 1)) =~= before + utf16(s@.skip(i as int)));
        i = i + 1;
    }
    assert(s@.skip(s@.len() as int) =~= Seq::<char>::empty());
    assert(out@ + utf16(Seq::<char>::empty()) =~= out@);
    out
}

/// UTF-16 decoding of `u` (see `utf16_decode`).
pub fn decode_utf16(u: &Vec<u16>) -> (r: Vec<char>)
    ensures
        r@ == utf16_decode(u@),
{
    let mut out: Vec<char> = Vec::new();
    let mut i: usize = 0;
    assert(u@.skip(0) =~= u@);
    assert(out@ + utf16_decode(u@) =~= utf16_decode(u@));
    while i < u.len()
        invariant
            i <= u@.len(),
            out@ + utf16_decode(u@.skip(i as int)) == utf16_decode(u@),
        decreases u@.len() - i,
    {
        let ghost rest = u@.skip(i as int);
        let ghost before = out@;
        let a = u[i];
        if 0xD800 <= a && a < 0xDC00 && i + 1 < u.len() && 0xDC00 <= u[i + 1] && u[i + 1] < 0xE000 {
            let b = u[i + 1];
            let v: u32 = 0x10000 + (a as u32 - 0xD800) * 1024 + (b as u32 - 0xDC00);
            out.push(scalar_char(v));
            assert(rest.skip(2) =~= u@.skip(i + 2));
            i = i + 2;
        } else if 0xD800 <= a && a < 0xE000 {
            out.push('\u{FFFD}');
            assert(rest.skip(1) =~= u@.skip(i + 1));
            i = i + 1;
        } else {
            out.push(scalar_char(a as u32));
            assert(rest.skip(1) =~= u@.skip(i + 1));
            i = i + 1;
        }
        assert(out@ + utf16_decode(u@.skip(i as int)) =~= before + utf16_decode(rest));
    }
    assert(u@.skip(u@.len() as int) =~= Seq::<u16>::empty());
    assert(out@ + Seq::<char>::empty() =~= out@);
    out
}

/// Whether `name` is a valid long name (see `valid_long_name`).
pub fn long_name_valid(name: &Vec<char>) -> (r: bool)
    ensures
        r == valid_long_name(name@),
{
    let u = encode_utf16(name);
    if u.len() > 255 {
        return false;
    }
    let mut i: usize = 0;
    while i < name.len()
        invariant
            i <= name@.len(),
            forall|k: int| 0 <= k < i ==> !is_forbidden_long(#[trigger] name@[k]),
        decreases name@.len() - i,
    {
        let c = name[i];
        if c == '+' || c == ',' || c == ';' || c == '[' || c == ']' {
            return false;
        }
        i = i + 1;
    }
    true
}

/// Appends the little-endian bytes of `u[lo..hi]`.
fn push_units(out: &mut Vec<u8>, u: &Vec<u16>, lo: usize, hi: usize)
    requires
        lo <= hi <= u@.len(),
    ensures
        final(out)@ == old(out)@ + units_bytes(u@.subrange(lo as int, hi as int)),
{
    let mut t = lo;
    while t < hi
        invariant
            lo <= t <= hi <= u@.len(),
            out@ == old(out)@ + units_bytes(u@.subrange(lo as int, t as int)),
        decreases hi - t,
    {
        let ghost before = out@;
        out.push((u[t] % 256) as u8);
        out.push((u[t] / 256) as u8);
        let ghost a = units_bytes(u@.subrange(lo as int, t as int));
        let ghost b = units_bytes(u@.subrange(lo as int, t + 1));
        assert forall|i: int| 0 <= i < b.len() implies b[i] == (a + seq![(u@[t as int] % 256) as u8, (u@[t as int] / 256) as u8])[i] by {
            if i < a.len() {
                assert(i / 2 < t - lo);
            } else if i == a.len() {
                assert(i / 2 == t - lo);
            } else {
                assert(i / 2 == t - lo);
            }
        }
        assert(b =~= a + seq![(u@[t as int] % 256) as u8, (u@[t as int] / 256) as u8]);
        t = t + 1;
        assert(out@ =~= old(out)@ + units_bytes(u@.subrange(lo as int, t as int)));
    }
}

/// One long entry holding `u[at..at+13]`.
fn make_long_entry(ord: u8, chk: u8, u: &Vec<u16>, at: usize) -> (r: Vec<u8>)
    requires
        at + 13 <= u.len(),
    ensures
        r@ == long_entry(ord, chk, u@.subrange(at as int, at + 13)),
        r@.len() == 32,
{
    let ghost w = u@.subrange(at as int, at + 13);
    let mut e: Vec<u8> = Vec::new();
    e.push(ord);
    push_units(&mut e, u, at, at + 5);
    e.push(ATTR_LONG_NAME);
    e.push(0u8);
    e.push(chk);
    push_units(&mut e, u, at + 5, at + 11);
    e.push(0u8);
    e.push(0u8);
    push_units(&mut e, u, at + 11, at + 13);
    assert(w.subrange(0, 5) =~= u@.subrange(at as int, at + 5));
    assert(w.subrange(5, 11) =~= u@.subrange(at + 5, at + 11));
    assert(w.subrange(11, 13) =~= u@.subrange(at + 11, at + 13));
    assert(e@ =~= long_entry(ord, chk, w));
    e
}

/// The code units stored for a long name (see `padded_units`).
pub fn make_padded_units(name: &Vec<char>) -> (r: Vec<u16>)
    requires
        utf16(name@).len() <= 255,
    ensures
        r@ == padded_units(name@),
        r@.len() == long_entry_count(name@) * 13,
{
    let mut u = encode_utf16(name);
    let len = u.len();
    u.push(0u16);
    let m = (len + 13) / 13;
    let target = m * 13;
    assert(target >= len + 1) by (nonlinear_arith)
        requires
            m == (len + 13) / 13,
            target == m * 13,
    ;
    let ghost head = u@;
    while u.len() < target
        invariant
            len + 1 <= u@.len() <= target,
            target <= 13 * 21,
            u@ == head + Seq::new((u@.len() - (len + 1)) as nat, |i: int| 0xFFFFu16),
        decreases target - u@.len(),
    {
        u.push(0xFFFFu16);
        assert(u@ =~= head + Seq::new((u@.len() - (len + 1)) as nat, |i: int| 0xFFFFu16));
    }
    assert(u@ =~= padded_units(name@));
    u
}

/// The long entries of `name` in disk order (see `long_entries`).
pub fn build_long_entries(name: &Vec<char>, chk: u8) -> (r: Vec<u8>)
    requires
        utf16(name@).len() <= 255,
    ensures
        r@ == long_entries(name@, chk),
        r@.len() == 32 * long_entry_count(name@),
{
    let u = make_padded_units(name);
    let m = u.len() / 13;
    assert(m == long_entry_count(name@));
    let mut out: Vec<u8> = Vec::new();
    let mut j: usize = 0;
    assert(out@ + long_entries_from(name@, chk, 0) =~= long_entries(name@, chk));
    while j < m
        invariant
            j <= m,
            m == long_entry_count(name@),
            u@ == padded_units(name@),
            u@.len() == m * 13,
            m <= 21,
            out@.len() == 32 * j,
            out@ + long_entries_from(name@, chk, j as nat) == long_entries(name@, chk),
        decreases m - j,
    {
        let k = m - 1 - j;
        let ord: u8 = if k == 0 {
            (m - k) as u8 + 0x40
        } else {
            (m - k) as u8
        };
        assert(ord == long_ord(m as nat, k as int));
        let e = make_long_entry(ord, chk, &u, 13 * k);
        let ghost before = out@;
        let mut t: usize = 0;
        while t < 32
            invariant
                t <= 32,
                e@.len() == 32,
                out@ == before + e@.take(t as int),
            decreases 32 - t,
        {
            out.push(e[t]);
            t = t + 1;
            assert(out@ =~= before + e@.take(t as int));
        }
        assert(e@.take(32) =~= e@);
        j = j + 1;
        assert(out@ + long_entries_from(name@, chk, j as nat) =~= before + long_entries_from(name@, chk, (j - 1) as nat));
    }
    assert(out@ =~= long_entries(name@, chk));
    out
}

/// The 13 code units of the long entry at `acc[at..at+32]`.
fn read_entry_units(acc: &Vec<u8>, at: usize) -> (r: Vec<u16>)
    requires
        at + 32 <= acc.len(),
    ensures
        r@ == entry_units(acc@.subrange(at as int, at + 32)),
{
    let ghost e = acc@.subrange(at as int, at + 32);
    let mut r: Vec<u16> = Vec::new();
    let mut k: usize = 0;
    while k < 13
        invariant
            k <= 13,
            at + 32 <= acc.len(),
            e == acc@.subrange(at as int, at + 32),
            r@ == entry_units(e).take(k as int),
        decreases 13 - k,
    {
        let off: usize = if k < 5 {
            1 + 2 * k
        } else if k < 11 {
            14 + 2 * (k - 5)
        } else {
            28 + 2 * (k - 11)
        };
        assert(off as int == unit_offset(k as int));
        r.push((acc[at + off] as u16) + (acc[at + off + 1] as u16) * 256);
        k = k + 1;
        assert(r@ =~= entry_units(e).take(k as int));
    }
    assert(entry_units(e).take(13) =~= entry_units(e));
    r
}

/// The name spelled by long entries read in disk order (see `long_name_of`).
pub fn long_name_from_entries(acc: &Vec<u8>) -> (r: Vec<char>)
    requires
        acc@.len() % 32 == 0,
    ensures
        r@ == long_name_of(acc@),
{
    let n = acc.len() / 32;
    let mut units: Vec<u16> = Vec::new();
    let mut j: usize = n;
    assert(acc@.subrange(32 * n, acc@.len() as int) =~= Seq::<u8>::empty());
    while j > 0
        invariant
            j <= n,
            acc.len() == 32 * n,
            units@ == long_units(acc@.subrange(32 * j, acc@.len() as int)),
        decreases j,
    {
        j = j - 1;
        let e = read_entry_units(acc, 32 * j);
        let ghost rest = acc@.subrange(32 * j, acc@.len() as int);
        assert(rest.subrange(32, rest.len() as int) =~= acc@.subrange(32 * (j + 1), acc@.len() as int));
        assert(rest.subrange(0, 32) =~= acc@.subrange(32 * j, 32 * j + 32));
        let ghost before = units@;
        let mut t: usize = 0;
        while t < 13
            invariant
                t <= 13,
                e@.len() == 13,
                units@ == before + e@.take(t as int),
            decreases 13 - t,
        {
            units.push(e[t]);
            t = t + 1;
            assert(units@ =~= before + e@.take(t as int));
        }
        assert(e@.take(13) =~= e@);
    }
    assert(acc@.subrange(0, acc@.len() as int) =~= acc@);
    let mut cut: Vec<u16> = Vec::new();
    let mut i: usize = 0;
    assert(units@.skip(0) =~= units@);
    while i < units.len() && units[i] != 0
        invariant
            i <= units@.len(),
            cut@ + until_nul(units@.skip(i as int)) == until_nul(units@),
        decreases units@.len() - i,
    {
        let ghost before = cut@;
        cut.push(units[i]);
        assert(units@.skip(i as int).skip(1) =~= units@.skip(i + 1));
        i = i + 1;
        assert(cut@ + until_nul(units@.skip(i as int)) =~= before + until_nul(units@.skip(i - 1)));
    }
    assert(until_nul(units@.skip(i as int)) =~= Seq::<u16>::empty());
    assert(cut@ + Seq::<u16>::empty() =~= cut@);
    decode_utf16(&cut)
}

/// Whether byte 13 of every long entry in `acc` is `chk`.
pub open spec fn all_chksums(acc: Seq<u8>, chk: u8) -> bool {
    forall|j: int| 0 <= j < acc.len() / 32 ==> #[trigger] acc[32 * j + 13] == chk
}

pub fn check_chksums(acc: &Vec<u8>, chk: u8) -> (r: bool)
    requires
        acc@.len() % 32 == 0,
    ensures
        r == all_chksums(acc@, chk),
{
    let n = acc.len() / 32;
    let mut j: usize = 0;
    while j < n
        invariant
            j <= n,
            n == acc@.len() / 32,
            acc.len() == 32 * n,
            forall|k: int| 0 <= k < j ==> #[trigger] acc@[32 * k + 13] == chk,
        decreases n - j,
    {
        if acc[32 * j + 13] != chk {
            return false;
        }
        j = j + 1;
    }
    true
}

// ----- short aliases of long names -----

/// The character that stands for `c` in a short alias.
pub open spec fn alias_char(c: char) -> char {
    if is_ascii_char(c) {
        to_upper(c)
    } else {
        '_'
    }
}

pub open spec fn alias_chars(s: Seq<char>) -> Seq<char> {
    s.map_values(|c: char| alias_char(c))
}

/// Whether the alias of `s` loses characters that are not ASCII.
pub open spec fn is_lossy(s: Seq<char>) -> bool {
    exists|i: int| 0 <= i < s.len() && !is_ascii_char(#[trigger] s[i])
}

/// Index of the last `.` of `s`, or -1.
pub open spec fn last_dot(s: Seq<char>) -> int
    decreases s.len(),
{
    if s.len() == 0 {
        -1
    } else if s.last() == '.' {
        s.len() - 1
    } else {
        last_dot(s.drop_last())
    }
}

pub open spec fn min_int(a: int, b: int) -> int {
    if a < b {
        a
    } else {
        b
    }
}

/// At most eight characters before the first dot.
pub open spec fn alias_base(t: Seq<char>) -> Seq<char> {
    t.take(min_int(first_dot(t), 8))
}

/// At most three characters after the last dot.
pub open spec fn alias_ext(t: Seq<char>) -> Seq<char> {
    if last_dot(t) >= 0 {
        t.subrange(last_dot(t) + 1, min_int(last_dot(t) + 4, t.len() as int))
    } else {
        Seq::empty()
    }
}

/// The 11-byte field first tried as the short alias of a long name.
pub open spec fn alias_field(s: Seq<char>) -> Seq<u8> {
    padded_upper(alias_base(alias_chars(s)), 8) + padded_upper(alias_ext(alias_chars(s)), 3)
}

/// The decimal digits of `n`.
pub open spec fn decimal(n: nat) -> Seq<u8>
    decreases n,
{
    if n < 10 {
        seq![(48 + n) as u8]
    } else {
        decimal(n / 10).push((48 + n % 10) as u8)
    }
}

/// A field with `~n` after what is kept of its base: the base loses as many
/// trailing characters as `~n` needs, and the extension stays.
pub open spec fn numbered_field(f: Seq<u8>, n: nat) -> Seq<u8> {
    let d = decimal(n);
    let keep = min_int(trim_spaces(f.subrange(0, 8)).len() as int, 7 - d.len());
    f.take(keep) + seq![0x7Eu8] + d + Seq::new((7 - keep - d.len()) as nat, |i: int| 0x20u8)
        + f.subrange(8, 11)
}

pub proof fn lemma_decimal_len(n: nat)
    ensures
        1 <= decimal(n).len(),
        n < 1000000 ==> decimal(n).len() <= 6,
        n < 100000 ==> decimal(n).len() <= 5,
        n < 10000 ==> decimal(n).len() <= 4,
        n < 1000 ==> decimal(n).len() <= 3,
        n < 100 ==> decimal(n).len() <= 2,
    decreases n,
{
    if n >= 10 {
        lemma_decimal_len(n / 10);
    }
}

/// The decimal digits of `n`.
pub fn decimal_digits(n: u32) -> (r: Vec<u8>)
    ensures
        r@ == decimal(n as nat),
    decreases n,
{
    if n < 10 {
        let mut v: Vec<u8> = Vec::new();
        v.push((48 + n) as u8);
        assert(v@ =~= decimal(n as nat));
        v
    } else {
        let mut v = decimal_digits(n / 10);
        v.push((48 + n % 10) as u8);
        v
    }
}

/// The field with `~n` (see `numbered_field`).
pub fn make_numbered_field(f: &Vec<u8>, n: u32) -> (r: Vec<u8>)
    requires
        f@.len() == 11,
        1 <= n <= 999999,
    ensures
        r@ == numbered_field(f@, n as nat),
        r@.len() == 11,
{
    let d = decimal_digits(n);
    proof {
        lemma_decimal_len(n as nat);
    }
    let tl = trimmed_end(f, 0, 8);
    let keep: usize = if tl < 7 - d.len() {
        tl
    } else {
        7 - d.len()
    };
    let mut r: Vec<u8> = Vec::new();
    let mut i: usize = 0;
    while i < keep
        invariant
            i <= keep <= 7,
            f@.len() == 11,
            r@ == f@.take(i as int),
        decreases keep - i,
    {
        r.push(f[i]);
        i = i + 1;
        assert(r@ =~= f@.take(i as int));
    }
    r.push(0x7Eu8);
    let ghost head = r@;
    let mut k: usize = 0;
    while k < d.len()
        invariant
            k <= d@.len(),
            r@ == head + d@.take(k as int),
        decreases d@.len() - k,
    {
        r.push(d[k]);
        k = k + 1;
        assert(r@ =~= head + d@.take(k as int));
    }
    assert(d@.take(d@.len() as int) =~= d@);
    let ghost head2 = r@;
    let pad = 7 - keep - d.len();
    let mut p: usize = 0;
    while p < pad
        invariant
            p <= pad,
            r@ == head2 + Seq::new(p as nat, |i: int| 0x20u8),
        decreases pad - p,
    {
        r.push(0x20u8);
        p = p + 1;
        assert(r@ =~= head2 + Seq::new(p as nat, |i: int| 0x20u8));
    }
    let ghost head3 = r@;
    let mut q: usize = 8;
    while q < 11
        invariant
            8 <= q <= 11,
            f@.len() == 11,
            r@ == head3 + f@.subrange(8, q as int),
        decreases 11 - q,
    {
        r.push(f[q]);
        q = q + 1;
        assert(r@ =~= head3 + f@.subrange(8, q as int));
    }
    assert(r@ =~= numbered_field(f@, n as nat));
    r
}

/// The upper-case ASCII bytes of `t[lo..hi]`, padded with spaces to `n`.
fn pad_upper_range(t: &Vec<char>, lo: usize, hi: usize, n: usize) -> (r: Vec<u8>)
    requires
        lo <= hi <= t@.len(),
        hi - lo <= n,
    ensures
        r@ == padded_upper(t@.subrange(lo as int, hi as int), n as nat),
{
    let ghost part = t@.subrange(lo as int, hi as int);
    let mut r: Vec<u8> = Vec::new();
    let mut i: usize = 0;
    while i < n
        invariant
            i <= n,
            lo <= hi <= t@.len(),
            hi - lo <= n,
            part == t@.subrange(lo as int, hi as int),
            r@ == padded_upper(part, n as nat).take(i as int),
        decreases n - i,
    {
        let b: u8 = if i < hi - lo {
            let c = upper_char(t[lo + i]);
            c as u8
        } else {
            0x20u8
        };
        r.push(b);
        i = i + 1;
        assert(r@ =~= padded_upper(part, n as nat).take(i as int));
    }
    assert(r@ =~= padded_upper(part, n as nat));
    r
}

/// Index of the last dot of `t`, if it has one.
fn find_last_dot(t: &Vec<char>) -> (r: Option<usize>)
    ensures
        r matches Some(i) ==> i as int == last_dot(t@) && i < t.len(),
        r is None ==> last_dot(t@) == -1,
{
    let mut i = t.len();
    assert(t@.take(i as int) =~= t@);
    while i > 0
        invariant
            i <= t@.len(),
            last_dot(t@) == last_dot(t@.take(i as int)),
        decreases i,
    {
        assert(t@.take(i as int).drop_last() =~= t@.take(i - 1));
        if t[i - 1] == '.' {
            return Some(i - 1);
        }
        i = i - 1;
    }
    None
}

/// The first alias field of a long name and whether it lost characters (see `alias_field`).
pub fn make_alias_field(name: &Vec<char>) -> (r: (Vec<u8>, bool))
    ensures
        r.0@ == alias_field(name@),
        r.1 == is_lossy(name@),
        r.0@.len() == 11,
{
    let mut t: Vec<char> = Vec::new();
    let mut lossy = false;
    let mut i: usize = 0;
    while i < name.len()
        invariant
            i <= name@.len(),
            t@ == alias_chars(name@.take(i as int)),
            lossy == exists|k: int| 0 <= k < i && !is_ascii_char(#[trigger] name@[k]),
        decreases name@.len() - i,
    {
        let c = name[i];
        if (c as u32) < 128 {
            t.push(upper_char(c));
        } else {
            lossy = true;
            t.push('_');
        }
        i = i + 1;
        assert(t@ =~= alias_chars(name@.take(i as int)));
    }
    assert(name@.take(name@.len() as int) =~= name@);
    let fd = find_first_dot(&t);
    let bl = if fd < 8 {
        fd
    } else {
        8
    };
    assert(alias_base(t@) =~= t@.subrange(0, bl as int));
    let mut field = pad_upper_range(&t, 0, bl, 8);
    let ext = match find_last_dot(&t) {
        Some(ld) => {
            let hi = if t.len() - ld > 4 {
                ld + 4
            } else {
                t.len()
            };
            assert(alias_ext(t@) =~= t@.subrange(ld + 1, hi as int));
            pad_upper_range(&t, ld + 1, hi, 3)
        },
        None => {
            assert(alias_ext(t@) =~= t@.subrange(0, 0));
            pad_upper_range(&t, 0, 0, 3)
        },
    };
    let ghost head = field@;
    let mut k: usize = 0;
    while k < 3
        invariant
            k <= 3,
            ext@.len() == 3,
            field@ == head + ext@.take(k as int),
        decreases 3 - k,
    {
        field.push(ext[k]);
        k = k + 1;
        assert(field@ =~= head + ext@.take(k as int));
    }
    assert(ext@.take(3) =~= ext@);
    assert(field@ =~= alias_field(name@));
    (field, lossy)
}

// ----- reading back what was written -----

proof fn lemma_decode_one_char(c: char, rest: Seq<u16>)
    ensures
        utf16_decode(utf16_char(c) + rest) == seq![c] + utf16_decode(rest),
{
    let v = c as u32;
    vstd::utf8::char_is_scalar(c);
    let u = utf16_char(c) + rest;
    if v < 0x10000 {
        assert(u[0] == v as u16);
        assert(u.skip(1) =~= rest);
        vstd::utf8::char_u32_cast(c, v);
        assert(char_of(u[0] as u32) == c);
    } else {
        let w = v - 0x10000;
        let hi = (0xD800 + w / 1024) as u16;
        let lo = (0xDC00 + w % 1024) as u16;
        assert(u[0] == hi && u[1] == lo);
        assert(u.skip(2) =~= rest);
        assert(0x10000 + (hi - 0xD800) * 1024 + (lo - 0xDC00) == v) by (nonlinear_arith)
            requires
                hi == 0xD800 + w / 1024,
                lo == 0xDC00 + w % 1024,
                w == v - 0x10000,
                0 <= w < 0x100000,
        ;
        vstd::utf8::char_u32_cast(c, v);
    }
}

/// UTF-16 decoding undoes UTF-16 encoding.
pub proof fn lemma_utf16_round_trip(s: Seq<char>)
    ensures
        utf16_decode(utf16(s)) == s,
    decreases s.len(),
{
    if s.len() > 0 {
        lemma_utf16_round_trip(s.skip(1));
        lemma_decode_one_char(s[0], utf16(s.skip(1)));
        assert(seq![s[0]] + s.skip(1) =~= s);
    }
}

/// No code unit of the encoding is 0 when no character is NUL.
proof fn lemma_utf16_no_nul(s: Seq<char>)
    requires
        forall|i: int| 0 <= i < s.len() ==> #[trigger] s[i] != '\0',
    ensures
        forall|i: int| 0 <= i < utf16(s).len() ==> #[trigger] utf16(s)[i] != 0,
    decreases s.len(),
{
    if s.len() > 0 {
        assert forall|i: int| 0 <= i < s.skip(1).len() implies #[trigger] s.skip(1)[i] != '\0' by {
            assert(s.skip(1)[i] == s[i + 1]);
        }
        lemma_utf16_no_nul(s.skip(1));
        let c = s[0];
        assert((c as u32) != 0) by {
            vstd::utf8::char_u32_cast(c, c as u32);
            vstd::utf8::char_u32_cast('\0', 0u32);
            if (c as u32) == 0 {
                assert(c == (0u32 as char));
            }
        }
        let head = utf16_char(c);
        let v: u32 = c as u32;
        vstd::utf8::char_is_scalar(c);
        assert(v != 0);
        assert forall|i: int| 0 <= i < head.len() implies #[trigger] head[i] != 0 by {
            if v < 0x10000 {
                assert(head[0] == v as u16);
                assert((v as u16) as int == v as int);
            } else {
                let w = v - 0x10000;
                assert(head[0] == (0xD800 + w / 1024) as u16);
                assert(head[1] == (0xDC00 + w % 1024) as u16);
                assert(w / 1024 < 0x400);
            }
        }
        assert forall|i: int| 0 <= i < utf16(s).len() implies #[trigger] utf16(s)[i] != 0 by {
            if i >= head.len() {
                assert(utf16(s)[i] == utf16(s.skip(1))[i - head.len()]);
            } else {
                assert(utf16(s)[i] == head[i]);
            }
        }
    }
}

proof fn lemma_until_nul(a: Seq<u16>, b: Seq<u16>)
    requires
        forall|i: int| 0 <= i < a.len() ==> #[trigger] a[i] != 0,
    ensures
        until_nul(a.push(0u16) + b) == a,
    decreases a.len(),
{
    let u = a.push(0u16) + b;
    if a.len() == 0 {
        assert(u[0] == 0);
    } else {
        assert(u.skip(1) =~= a.skip(1).push(0u16) + b);
        assert forall|i: int| 0 <= i < a.skip(1).len() implies #[trigger] a.skip(1)[i] != 0 by {
            assert(a.skip(1)[i] == a[i + 1]);
        }
        lemma_until_nul(a.skip(1), b);
        assert(seq![a[0]] + a.skip(1) =~= a);
    }
}

/// A long entry gives back the 13 code units it was made from.
proof fn lemma_entry_units(ord: u8, chk: u8, u: Seq<u16>)
    requires
        u.len() == 13,
    ensures
        entry_units(long_entry(ord, chk, u)) == u,
        long_entry(ord, chk, u).len() == 32,
        long_entry(ord, chk, u)[13] == chk,
        long_entry(ord, chk, u)[11] == ATTR_LONG_NAME,
{
    let e = long_entry(ord, chk, u);
    let a = units_bytes(u.subrange(0, 5));
    let b = units_bytes(u.subrange(5, 11));
    let c = units_bytes(u.subrange(11, 13));
    assert(e =~= seq![ord] + a + seq![ATTR_LONG_NAME, 0u8, chk] + b + seq![0u8, 0u8] + c);
    assert forall|k: int| 0 <= k < 13 implies #[trigger] entry_units(e)[k] == u[k] by {
        let o = unit_offset(k);
        if k < 5 {
            assert(e[o] == a[2 * k] && e[o + 1] == a[2 * k + 1]);
            assert(a[2 * k] == (u[k] % 256) as u8);
            assert(a[2 * k + 1] == (u[k] / 256) as u8);
        } else if k < 11 {
            assert(e[o] == b[2 * (k - 5)] && e[o + 1] == b[2 * (k - 5) + 1]);
            assert(b[2 * (k - 5)] == (u[k] % 256) as u8);
            assert(b[2 * (k - 5) + 1] == (u[k] / 256) as u8);
        } else {
            assert(e[o] == c[2 * (k - 11)] && e[o + 1] == c[2 * (k - 11) + 1]);
            assert(c[2 * (k - 11)] == (u[k] % 256) as u8);
            assert(c[2 * (k - 11) + 1] == (u[k] / 256) as u8);
        }
    }
    assert(entry_units(e) =~= u);
}

/// Reading the long entries from the `j`-th on gives the units of the name's
/// first `m - j` chunks.
proof fn lemma_units_from(s: Seq<char>, chk: u8, j: nat)
    requires
        j <= long_entry_count(s),
        padded_units(s).len() == 13 * long_entry_count(s),
    ensures
        long_entries_from(s, chk, j).len() == 32 * (long_entry_count(s) - j),
        long_units(long_entries_from(s, chk, j)) == padded_units(s).take(13 * (long_entry_count(s) - j)),
        all_chksums(long_entries_from(s, chk, j), chk),
        forall|x: int| 0 <= x < (long_entry_count(s) - j) ==> #[trigger] long_entries_from(s, chk, j)[32 * x + 11] == ATTR_LONG_NAME,
        long_entry_count(s) <= 21 ==> forall|x: int| 0 <= x < (long_entry_count(s) - j) ==> {
            let o = #[trigger] long_entries_from(s, chk, j)[32 * x];
            o != 0 && o != 0xE5
        },
    decreases long_entry_count(s) - j,
{
    let m = long_entry_count(s);
    let p = padded_units(s);
    if j >= m {
        assert(p.take(0) =~= Seq::<u16>::empty());
    } else {
        lemma_units_from(s, chk, j + 1);
        let k = m - 1 - j;
        let u = p.subrange(13 * k, 13 * k + 13);
        let e = long_entry(long_ord(m, k), chk, u);
        lemma_entry_units(long_ord(m, k), chk, u);
        let rest = long_entries_from(s, chk, j + 1);
        let all = long_entries_from(s, chk, j);
        assert(all == e + rest);
        assert(all.subrange(32, all.len() as int) =~= rest);
        assert(all.subrange(0, 32) =~= e);
        assert(p.take(13 * (m - (j + 1))) + u =~= p.take(13 * (m - j)));
        assert forall|x: int| 0 <= x < all.len() / 32 implies #[trigger] all[32 * x + 13] == chk by {
            if x > 0 {
                assert(all[32 * x + 13] == rest[32 * (x - 1) + 13]);
            }
        }
        assert forall|x: int| 0 <= x < (m - j) implies #[trigger] all[32 * x + 11] == ATTR_LONG_NAME by {
            if x > 0 {
                assert(all[32 * x + 11] == rest[32 * (x - 1) + 11]);
            }
        }
        if m <= 21 {
            assert(e[0] == long_ord(m, k));
            assert forall|x: int| 0 <= x < (m - j) implies ({
                let o = #[trigger] all[32 * x];
                o != 0 && o != 0xE5
            }) by {
                if x > 0 {
                    assert(all[32 * x] == rest[32 * (x - 1)]);
                } else {
                    assert(all[0] == e[0]);
                }
            }
        }
    }
}

/// Writing a long name as long entries and reading them back gives the
/// name, and every entry carries the checksum, for names without NUL.
pub proof fn lemma_long_name_round_trip(s: Seq<char>, chk: u8)
    requires
        utf16(s).len() <= 255,
        forall|i: int| 0 <= i < s.len() ==> #[trigger] s[i] != '\0',
    ensures
        long_name_of(long_entries(s, chk)) == s,
        all_chksums(long_entries(s, chk), chk),
        long_entries(s, chk).len() == 32 * long_entry_count(s),
{
    let m = long_entry_count(s);
    let a = utf16(s);
    assert(m * 13 >= a.len() + 1) by (nonlinear_arith)
        requires
            m == (a.len() + 1 + 12) / 13,
    ;
    let p = padded_units(s);
    assert(p.len() == 13 * m);
    lemma_units_from(s, chk, 0);
    assert(p.take((13 * m) as int) =~= p);
    lemma_utf16_no_nul(s);
    let b = Seq::new((m * 13 - (a.len() + 1)) as nat, |i: int| 0xFFFFu16);
    assert(p =~= a.push(0u16) + b);
    lemma_until_nul(a, b);
    lemma_utf16_round_trip(s);
}

/// The long entries of a valid name: each is marked as a long entry and its
/// ordinal byte is neither 0x00 nor 0xE5.
pub proof fn lemma_long_entries_shape(s: Seq<char>, chk: u8)
    requires
        utf16(s).len() <= 255,
    ensures
        long_entries(s, chk).len() == 32 * long_entry_count(s),
        1 <= long_entry_count(s) <= 21,
        all_chksums(long_entries(s, chk), chk),
        forall|x: int| 0 <= x < long_entry_count(s) ==> #[trigger] long_entries(s, chk)[32 * x + 11] == ATTR_LONG_NAME,
        forall|x: int| 0 <= x < long_entry_count(s) ==> {
            let o = #[trigger] long_entries(s, chk)[32 * x];
            o != 0 && o != 0xE5
        },
{
    let m = long_entry_count(s);
    let a = utf16(s);
    assert(m * 13 >= a.len() + 1) by (nonlinear_arith)
        requires
            m == (a.len() + 1 + 12) / 13,
    ;
    assert(padded_units(s).len() == 13 * m);
    lemma_units_from(s, chk, 0);
}

} // verus!
