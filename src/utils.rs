use vstd::prelude::*;

use crate::fat::short_name::lower_char;

verus! {

pub const KB: u64 = 1024;

pub const MB: u64 = 1024 * KB;

pub const GB: u64 = 1024 * MB;

pub const TB: u64 = 1024 * GB;

/// Bytes of a sector of the image.
pub const SECTOR_SIZE: usize = 512;

/// Division of `a` by `b`, rounded up.
pub fn ceil_div(a: u64, b: u64) -> (r: u64)
    requires
        b > 0,
        a + b - 1 <= u64::MAX,
    ensures
        r as int == (a as int + b as int - 1) / (b as int),
{
    let q = a / b;
    let r = if a % b != 0 {
        q + 1
    } else {
        q
    };
    assert(r as int == (a as int + b as int - 1) / (b as int)) by (nonlinear_arith)
        requires
            q == a / b,
            b > 0,
            r == if a % b != 0 { q + 1 } else { q as int },
    ;
    r
}

pub open spec fn is_digit(c: char) -> bool {
    '0' <= c && c <= '9'
}

/// The value of a string of decimal digits.
pub open spec fn digits_value(s: Seq<char>) -> int
    decreases s.len(),
{
    if s.len() == 0 {
        0
    } else {
        digits_value(s.drop_last()) * 10 + (s.last() as int - 48)
    }
}

/// A string without its leading `+`, if it has one.
pub open spec fn unsigned_part(s: Seq<char>) -> Seq<char> {
    if s.len() > 0 && s[0] == '+' {
        s.skip(1)
    } else {
        s
    }
}

pub open spec fn all_digits(d: Seq<char>) -> bool {
    forall|i: int| 0 <= i < d.len() ==> is_digit(#[trigger] d[i])
}

/// The number a decimal string stands for: digits, optionally after a `+`,
/// whose value fits in 64 bits.
pub open spec fn number_of(s: Seq<char>) -> Option<u64> {
    let d = unsigned_part(s);
    if d.len() >= 1 && all_digits(d) && digits_value(d) <= u64::MAX {
        Some(digits_value(d) as u64)
    } else {
        None
    }
}

/// The factor of a size unit, in any case: k/kb, m/mb, g/gb, t/tb.
pub open spec fn unit_factor(u: Seq<char>) -> Option<u64> {
    let l = u.map_values(|c: char| crate::fat::short_name::to_lower(c));
    if l == seq!['k'] || l == seq!['k', 'b'] {
        Some(KB)
    } else if l == seq!['m'] || l == seq!['m', 'b'] {
        Some(MB)
    } else if l == seq!['g'] || l == seq!['g', 'b'] {
        Some(GB)
    } else if l == seq!['t'] || l == seq!['t', 'b'] {
        Some(TB)
    } else {
        None
    }
}

/// A size with its unit taking the last `i` characters, if that reads.
pub open spec fn size_with_unit(s: Seq<char>, i: int) -> Option<u64> {
    if s.len() < i {
        None
    } else {
        match (number_of(s.take(s.len() - i)), unit_factor(s.skip(s.len() - i))) {
            (Some(n), Some(f)) => if n * f <= u64::MAX {
                Some((n * f) as u64)
            } else {
                None
            },
            _ => None,
        }
    }
}

/// The bytes a size string stands for: a plain number, or a number with a
/// unit of two characters, else of one.
pub open spec fn size_of(s: Seq<char>) -> Option<u64> {
    if number_of(s) is Some {
        number_of(s)
    } else if size_with_unit(s, 2) is Some {
        size_with_unit(s, 2)
    } else {
        size_with_unit(s, 1)
    }
}

/// The number `s[lo..hi]` stands for (see `number_of`).
#[verifier::loop_isolation(false)]
fn parse_number(s: &Vec<char>, lo: usize, hi: usize) -> (r: Option<u64>)
    requires
        lo <= hi <= s@.len(),
    ensures
        r == number_of(s@.subrange(lo as int, hi as int)),
{
    let ghost whole = s@.subrange(lo as int, hi as int);
    let start = if lo < hi && s[lo] == '+' {
        lo + 1
    } else {
        lo
    };
    let ghost d = s@.subrange(start as int, hi as int);
    assert(d =~= unsigned_part(whole));
    if start >= hi {
        return None;
    }
    let mut v: u64 = 0;
    let mut i = start;
    while i < hi
        invariant
            start <= i <= hi <= s@.len(),
            d == s@.subrange(start as int, hi as int),
            whole == s@.subrange(lo as int, hi as int),
            d == unsigned_part(whole),
            v as int == digits_value(s@.subrange(start as int, i as int)),
            forall|k: int| start <= k < i ==> is_digit(#[trigger] s@[k]),
        decreases hi - i,
    {
        let c = s[i];
        if !('0' <= c && c <= '9') {
            assert(!is_digit(d[i - start]));
            assert(!all_digits(d));
            assert(number_of(whole) is None);
            return None;
        }
        assert(s@.subrange(start as int, i + 1).drop_last() =~= s@.subrange(start as int, i as int));
        let digit = (c as u32 - 48) as u64;
        if v > (u64::MAX - digit) / 10 {
            proof {
                assert(v * 10 + digit > u64::MAX) by (nonlinear_arith)
                    requires
                        v > (u64::MAX - digit) / 10,
                        digit <= 9,
                ;
                assert(digits_value(s@.subrange(start as int, i + 1)) == v * 10 + digit);
                if all_digits(d) {
                    lemma_digits_grow(d, (i + 1 - start) as int);
                    assert(d.take((i + 1 - start) as int) =~= s@.subrange(start as int, i + 1));
                    assert(digits_value(d) > u64::MAX);
                }
                assert(number_of(whole) is None);
            }
            return None;
        }
        v = v * 10 + digit;
        i = i + 1;
    }
    assert forall|k: int| 0 <= k < d.len() implies is_digit(#[trigger] d[k]) by {
        assert(d[k] == s@[start + k]);
    }
    assert(all_digits(d));
    assert(s@.subrange(start as int, hi as int) =~= d);
    Some(v)
}

/// A value of a prefix of a digit string never exceeds the value of the whole.
proof fn lemma_digits_grow(d: Seq<char>, n: int)
    requires
        0 <= n <= d.len(),
        forall|k: int| 0 <= k < d.len() ==> is_digit(#[trigger] d[k]),
    ensures
        digits_value(d.take(n)) <= digits_value(d),
    decreases d.len() - n,
{
    if n < d.len() {
        lemma_digits_grow(d, n + 1);
        assert(d.take(n + 1).drop_last() =~= d.take(n));
        assert(digits_value(d.take(n)) >= 0) by {
            lemma_digits_nonneg(d.take(n));
        }
    } else {
        assert(d.take(n) =~= d);
    }
}

proof fn lemma_digits_nonneg(d: Seq<char>)
    requires
        forall|k: int| 0 <= k < d.len() ==> is_digit(#[trigger] d[k]),
    ensures
        digits_value(d) >= 0,
    decreases d.len(),
{
    if d.len() > 0 {
        lemma_digits_nonneg(d.drop_last());
    }
}

/// The factor of the unit `s[lo..]` (see `unit_factor`).
fn parse_unit(s: &Vec<char>, lo: usize) -> (r: Option<u64>)
    requires
        lo <= s@.len(),
    ensures
        r == unit_factor(s@.skip(lo as int)),
{
    let ghost u = s@.skip(lo as int);
    let mut l: Vec<char> = Vec::new();
    let mut i = lo;
    while i < s.len()
        invariant
            lo <= i <= s@.len(),
            u == s@.skip(lo as int),
            l@ == s@.subrange(lo as int, i as int).map_values(|c: char| crate::fat::short_name::to_lower(c)),
        decreases s@.len() - i,
    {
        l.push(lower_char(s[i]));
        i = i + 1;
        assert(l@ =~= s@.subrange(lo as int, i as int).map_values(|c: char| crate::fat::short_name::to_lower(c)));
    }
    assert(s@.subrange(lo as int, s@.len() as int) =~= u);
    let n = l.len();
    let ghost lv = l@;
    if (n == 1 && l[0] == 'k') || (n == 2 && l[0] == 'k' && l[1] == 'b') {
        assert(lv =~= seq!['k'] || lv =~= seq!['k', 'b']);
        Some(KB)
    } else if (n == 1 && l[0] == 'm') || (n == 2 && l[0] == 'm' && l[1] == 'b') {
        assert(lv =~= seq!['m'] || lv =~= seq!['m', 'b']);
        assert(!(lv =~= seq!['k'] || lv =~= seq!['k', 'b']));
        Some(MB)
    } else if (n == 1 && l[0] == 'g') || (n == 2 && l[0] == 'g' && l[1] == 'b') {
        assert(lv =~= seq!['g'] || lv =~= seq!['g', 'b']);
        assert(!(lv == seq!['k'] || lv == seq!['k', 'b']));
        assert(!(lv == seq!['m'] || lv == seq!['m', 'b']));
        Some(GB)
    } else if (n == 1 && l[0] == 't') || (n == 2 && l[0] == 't' && l[1] == 'b') {
        assert(lv =~= seq!['t'] || lv =~= seq!['t', 'b']);
        assert(!(lv == seq!['k'] || lv == seq!['k', 'b']));
        assert(!(lv == seq!['m'] || lv == seq!['m', 'b']));
        assert(!(lv == seq!['g'] || lv == seq!['g', 'b']));
        Some(TB)
    } else {
        assert(!(lv == seq!['k'] || lv == seq!['k', 'b']));
        assert(!(lv == seq!['m'] || lv == seq!['m', 'b']));
        assert(!(lv == seq!['g'] || lv == seq!['g', 'b']));
        assert(!(lv == seq!['t'] || lv == seq!['t', 'b']));
        None
    }
}

/// The bytes a size string such as `512`, `64k` or `2GB` stands for (see
/// `size_of`); `None` when it does not read or does not fit in 64 bits.
pub fn size2bytes(size: &str) -> (r: Option<u64>)
    ensures
        r == size_of(size@),
{
    let s = crate::fat::ops::chars_of(size);
    let len = s.len();
    assert(s@.subrange(0, len as int) =~= s@);
    let whole = parse_number(&s, 0, len);
    if whole.is_some() {
        return whole;
    }
    let mut i: usize = 2;
    while i >= 1
        invariant
            1 <= i <= 2,
            s@ == size@,
            len == s@.len(),
            number_of(s@) is None,
            i < 2 ==> size_with_unit(s@, 2) is None,
        decreases i,
    {
        if len >= i {
            assert(s@.subrange(0, len - i) =~= s@.take(len - i));
            let number = parse_number(&s, 0, len - i);
            let unit = parse_unit(&s, len - i);
            match (number, unit) {
                (Some(n), Some(f)) => {
                    if n > u64::MAX / f {
                        assert(n * f > u64::MAX) by (nonlinear_arith)
                            requires
                                n > u64::MAX / f,
                                f > 0,
                        ;
                        if i == 2 {
                            i = i - 1;
                            continue;
                        }
                        return None;
                    }
                    assert(n * f <= u64::MAX) by (nonlinear_arith)
                        requires
                            n <= u64::MAX / f,
                            f > 0,
                    ;
                    return Some(n * f);
                },
                _ => {},
            }
        }
        if i == 1 {
            return None;
        }
        i = i - 1;
    }
    None
}

} // verus!
