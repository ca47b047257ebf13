use vstd::prelude::*;

use crate::error::FsError;

verus! {

/// NT_RES flag: the base of the short name is shown in lower case.
pub const BASE_L: u8 = 0x08;

/// NT_RES flag: the extension of the short name is shown in lower case.
pub const EXT_L: u8 = 0x10;

pub open spec fn is_lower(c: char) -> bool {
    'a' <= c && c <= 'z'
}

pub open spec fn is_upper(c: char) -> bool {
    'A' <= c && c <= 'Z'
}

pub open spec fn to_upper(c: char) -> char {
    if is_lower(c) {
        ((c as u32) - 32) as char
    } else {
        c
    }
}

pub open spec fn to_lower(c: char) -> char {
    if is_upper(c) {
        ((c as u32) + 32) as char
    } else {
        c
    }
}

/// Index of the first `.` of `s`, or its length.
pub open spec fn first_dot(s: Seq<char>) -> int
    decreases s.len(),
{
    if s.len() == 0 {
        0
    } else if s[0] == '.' {
        0
    } else {
        1 + first_dot(s.drop_first())
    }
}

/// The part of a name before its first dot.
pub open spec fn base_part(s: Seq<char>) -> Seq<char> {
    s.take(first_dot(s))
}

/// The part of a name after its first dot (empty without a dot).
pub open spec fn ext_part(s: Seq<char>) -> Seq<char> {
    if first_dot(s) < s.len() {
        s.skip(first_dot(s) + 1)
    } else {
        Seq::empty()
    }
}

/// Whether a character of any script has the Unicode Lowercase property.
pub uninterp spec fn unicode_lower(c: char) -> bool;

/// Whether a character of any script has the Unicode Uppercase property.
pub uninterp spec fn unicode_upper(c: char) -> bool;

/// A lower-case letter: `a` to `z` in ASCII, the Unicode property beyond it.
pub open spec fn cased_lower(c: char) -> bool {
    if is_ascii_char(c) {
        is_lower(c)
    } else {
        unicode_lower(c)
    }
}

/// An upper-case letter: `A` to `Z` in ASCII, the Unicode property beyond it.
pub open spec fn cased_upper(c: char) -> bool {
    if is_ascii_char(c) {
        is_upper(c)
    } else {
        unicode_upper(c)
    }
}

/// Relies on `char::is_lowercase`: whether the character has the Lowercase property.
#[verifier::external_body]
fn char_is_lowercase(c: char) -> (r: bool)
    ensures
        r == unicode_lower(c),
{
    c.is_lowercase()
}

/// Relies on `char::is_uppercase`: whether the character has the Uppercase property.
#[verifier::external_body]
fn char_is_uppercase(c: char) -> (r: bool)
    ensures
        r == unicode_upper(c),
{
    c.is_uppercase()
}

fn lower_letter(c: char) -> (r: bool)
    ensures
        r == cased_lower(c),
{
    if (c as u32) < 128 {
        'a' <= c && c <= 'z'
    } else {
        char_is_lowercase(c)
    }
}

fn upper_letter(c: char) -> (r: bool)
    ensures
        r == cased_upper(c),
{
    if (c as u32) < 128 {
        'A' <= c && c <= 'Z'
    } else {
        char_is_uppercase(c)
    }
}

pub open spec fn has_lower(s: Seq<char>) -> bool {
    exists|i: int| 0 <= i < s.len() && cased_lower(s[i])
}

pub open spec fn has_upper(s: Seq<char>) -> bool {
    exists|i: int| 0 <= i < s.len() && cased_upper(s[i])
}

/// The case flags of a name: bit 0 and bit 1 say that the base holds lower
/// and upper case letters (Unicode case beyond ASCII), bits 2 and 3 say the same of the extension.
pub open spec fn caps_of(s: Seq<char>) -> u8 {
    ((if has_lower(base_part(s)) { 1int } else { 0 }) + (if has_upper(base_part(s)) { 2int } else { 0 })
        + (if has_lower(ext_part(s)) { 4int } else { 0 }) + (if has_upper(ext_part(s)) { 8int } else { 0 })) as u8
}

/// The symbols that never stand in a short name.
pub open spec fn is_forbidden_short(c: char) -> bool {
    c == '$' || c == '%' || c == '\'' || c == '-' || c == '_' || c == '@' || c == '`' || c == '~'
        || c == '!' || c == '(' || c == ')' || c == '{' || c == '}' || c == '^' || c == '#' || c
        == '&'
}

pub open spec fn is_ascii_char(c: char) -> bool {
    (c as u32) < 128
}

/// An 8.3 name: ASCII, none of the forbidden symbols, at most one dot, a base
/// of at most eight characters, an extension of at most three, and neither
/// part mixing upper and lower case.
pub open spec fn valid_short_name(s: Seq<char>) -> bool {
    &&& forall|i: int| 0 <= i < s.len() ==> is_ascii_char(#[trigger] s[i]) && !is_forbidden_short(s[i])
    &&& forall|i: int| first_dot(s) < i < s.len() ==> #[trigger] s[i] != '.'
    &&& first_dot(s) <= 8
    &&& ext_part(s).len() <= 3
    &&& !(has_lower(base_part(s)) && has_upper(base_part(s)))
    &&& !(has_lower(ext_part(s)) && has_upper(ext_part(s)))
}

/// The ASCII bytes of `s` in upper case, padded with spaces to `n`.
pub open spec fn padded_upper(s: Seq<char>, n: nat) -> Seq<u8> {
    Seq::new(n, |i: int| if i < s.len() { to_upper(s[i]) as u8 } else { 0x20u8 })
}

/// The 11-byte name field of a valid short name.
pub open spec fn short_field(s: Seq<char>) -> Seq<u8> {
    padded_upper(base_part(s), 8) + padded_upper(ext_part(s), 3)
}

/// The NT_RES byte of a name: BASE_L when its base has lower case letters
/// only, EXT_L when its extension has.
pub open spec fn nt_res_of(s: Seq<char>) -> u8 {
    ((if has_lower(base_part(s)) && !has_upper(base_part(s)) { BASE_L as int } else { 0 }) + (
    if has_lower(ext_part(s)) && !has_upper(ext_part(s)) { EXT_L as int } else { 0 })) as u8
}

/// `b` without its trailing spaces.
pub open spec fn trim_spaces(b: Seq<u8>) -> Seq<u8>
    decreases b.len(),
{
    if b.len() > 0 && b.last() == 0x20 {
        trim_spaces(b.drop_last())
    } else {
        b
    }
}

/// The characters of raw name bytes, in lower case where `lower` holds.
pub open spec fn field_chars(b: Seq<u8>, lower: bool) -> Seq<char> {
    b.map_values(|x: u8| if lower { to_lower(x as char) } else { x as char })
}

/// The name that a short entry's 11-byte field shows, given its NT_RES byte.
pub open spec fn decode_short(field: Seq<u8>, ntres: u8) -> Seq<char> {
    let base = field_chars(trim_spaces(field.subrange(0, 8)), ntres & BASE_L != 0);
    let ext = field_chars(trim_spaces(field.subrange(8, 11)), ntres & EXT_L != 0);
    if ext.len() == 0 {
        base
    } else {
        base + seq!['.'] + ext
    }
}

/// The VFAT checksum of name bytes: a rotate right by one and an add, modulo 256.
pub open spec fn chksum_of(b: Seq<u8>) -> u8
    decreases b.len(),
{
    if b.len() == 0 {
        0
    } else {
        let p = chksum_of(b.drop_last()) as int;
        (((if p % 2 == 1 { 128int } else { 0 }) + p / 2 + b.last() as int) % 256) as u8
    }
}

pub fn upper_char(c: char) -> (r: char)
    ensures
        r == to_upper(c),
{
    if 'a' <= c && c <= 'z' {
        ((c as u8) - 32) as char
    } else {
        c
    }
}

pub fn lower_char(c: char) -> (r: char)
    ensures
        r == to_lower(c),
{
    if 'A' <= c && c <= 'Z' {
        ((c as u8) + 32) as char
    } else {
        c
    }
}

/// Index of the first dot of `name`, or its length.
pub fn find_first_dot(name: &Vec<char>) -> (r: usize)
    ensures
        r as int == first_dot(name@),
        r <= name@.len(),
{
    let mut i: usize = 0;
    while i < name.len()
        invariant
            i <= name@.len(),
            forall|k: int| 0 <= k < i ==> name@[k] != '.',
        decreases name@.len() - i,
    {
        if name[i] == '.' {
            proof {
                lemma_first_dot_at(name@, i as int);
            }
            return i;
        }
        i = i + 1;
    }
    proof {
        lemma_first_dot_at(name@, i as int);
    }
    i
}

pub proof fn lemma_first_dot_at(s: Seq<char>, i: int)
    requires
        0 <= i <= s.len(),
        forall|k: int| 0 <= k < i ==> s[k] != '.',
        i == s.len() || s[i] == '.',
    ensures
        first_dot(s) == i,
    decreases i,
{
    if i > 0 {
        lemma_first_dot_at(s.drop_first(), i - 1);
    }
}

pub proof fn lemma_first_dot_bounds(s: Seq<char>)
    ensures
        0 <= first_dot(s) <= s.len(),
        forall|k: int| 0 <= k < first_dot(s) ==> s[k] != '.',
        first_dot(s) < s.len() ==> s[first_dot(s)] == '.',
    decreases s.len(),
{
    if s.len() > 0 && s[0] != '.' {
        lemma_first_dot_bounds(s.drop_first());
        assert forall|k: int| 0 <= k < first_dot(s) implies s[k] != '.' by {
            if k > 0 {
                assert(s[k] == s.drop_first()[k - 1]);
            }
        }
    }
}

/// Scans `s[lo..hi]` for lower and upper case ASCII letters.
fn case_flags(s: &Vec<char>, lo: usize, hi: usize) -> (r: (bool, bool))
    requires
        lo <= hi <= s@.len(),
    ensures
        r.0 == has_lower(s@.subrange(lo as int, hi as int)),
        r.1 == has_upper(s@.subrange(lo as int, hi as int)),
{
    let mut lower = false;
    let mut upper = false;
    let mut i = lo;
    let ghost part = s@.subrange(lo as int, hi as int);
    while i < hi
        invariant
            lo <= i <= hi <= s@.len(),
            part == s@.subrange(lo as int, hi as int),
            lower == exists|k: int| lo <= k < i && cased_lower(s@[k]),
            upper == exists|k: int| lo <= k < i && cased_upper(s@[k]),
        decreases hi - i,
    {
        let c = s[i];
        if lower_letter(c) {
            lower = true;
        }
        if upper_letter(c) {
            upper = true;
        }
        i = i + 1;
    }
    assert(lower == has_lower(part)) by {
        if lower {
            let k = choose|k: int| lo <= k < hi && cased_lower(s@[k]);
            assert(part[k - lo] == s@[k]);
        }
        if has_lower(part) {
            let k = choose|k: int| 0 <= k < part.len() && cased_lower(part[k]);
            assert(part[k] == s@[lo + k]);
        }
    }
    assert(upper == has_upper(part)) by {
        if upper {
            let k = choose|k: int| lo <= k < hi && cased_upper(s@[k]);
            assert(part[k - lo] == s@[k]);
        }
        if has_upper(part) {
            let k = choose|k: int| 0 <= k < part.len() && cased_upper(part[k]);
            assert(part[k] == s@[lo + k]);
        }
    }
    (lower, upper)
}

/// The case flags of `name` (see `caps_of`).
pub fn check_fname_caps(name: &Vec<char>) -> (r: u8)
    ensures
        r == caps_of(name@),
{
    let d = find_first_dot(name);
    proof {
        lemma_first_dot_bounds(name@);
    }
    let (bl, bu) = case_flags(name, 0, d);
    let (el, eu) = if d < name.len() {
        case_flags(name, d + 1, name.len())
    } else {
        (false, false)
    };
    assert(base_part(name@) =~= name@.subrange(0, d as int));
    if d < name.len() {
        assert(ext_part(name@) =~= name@.subrange(d + 1, name@.len() as int));
    }
    let r: u8 = (if bl { 1u8 } else { 0 }) + (if bu { 2u8 } else { 0 }) + (if el { 4u8 } else { 0 }) + (
    if eu { 8u8 } else { 0 });
    r
}

/// Whether `name` can be stored as an 8.3 short name.
pub fn check_short_name(name: &Vec<char>) -> (r: bool)
    ensures
        r == valid_short_name(name@),
{
    let d = find_first_dot(name);
    proof {
        lemma_first_dot_bounds(name@);
    }
    let mut i: usize = 0;
    while i < name.len()
        invariant
            i <= name@.len(),
            d as int == first_dot(name@),
            forall|k: int|
                0 <= k < i ==> is_ascii_char(#[trigger] name@[k]) && !is_forbidden_short(name@[k]),
            forall|k: int| d < k < i ==> #[trigger] name@[k] != '.',
        decreases name@.len() - i,
    {
        let c = name[i];
        if c as u32 >= 128 || c == '$' || c == '%' || c == '\'' || c == '-' || c == '_' || c == '@'
            || c == '`' || c == '~' || c == '!' || c == '(' || c == ')' || c == '{' || c == '}' || c
            == '^' || c == '#' || c == '&' {
            return false;
        }
        if i > d && c == '.' {
            return false;
        }
        i = i + 1;
    }
    if d > 8 {
        return false;
    }
    let ext_len = if d < name.len() {
        name.len() - d - 1
    } else {
        0
    };
    if ext_len > 3 {
        return false;
    }
    let caps = check_fname_caps(name);
    if caps % 4 == 3 || caps / 4 == 3 {
        return false;
    }
    true
}

/// An 8.3 name field: eight bytes of base and three of extension.
pub struct ShortName {
    pub field: Vec<u8>,
}

impl ShortName {
    /// The field of a valid short name: both parts in upper case, padded with spaces.
    pub fn new(name: &Vec<char>) -> (r: Result<ShortName, FsError>)
        ensures
            r is Ok <==> valid_short_name(name@),
            r matches Ok(sn) ==> sn.field@ == short_field(name@),
            r matches Err(e) ==> e == FsError::InvalidInput,
    {
        if !check_short_name(name) {
            return Err(FsError::InvalidInput);
        }
        let d = find_first_dot(name);
        proof {
            lemma_first_dot_bounds(name@);
        }
        let mut field: Vec<u8> = Vec::new();
        let ghost base = base_part(name@);
        let ghost ext = ext_part(name@);
        assert(base =~= name@.subrange(0, d as int));
        let mut i: usize = 0;
        while i < 8
            invariant
                i <= 8,
                d <= 8,
                d <= name@.len(),
                base == name@.subrange(0, d as int),
                field@ == padded_upper(base, 8).take(i as int),
            decreases 8 - i,
        {
            let b: u8 = if i < d {
                let c = upper_char(name[i]);
                c as u8
            } else {
                0x20u8
            };
            field.push(b);
            i = i + 1;
            assert(field@ =~= padded_upper(base, 8).take(i as int));
        }
        let mut j: usize = 0;
        while j < 3
            invariant
                j <= 3,
                d <= name@.len(),
                ext.len() <= 3,
                d < name@.len() ==> ext == name@.subrange(d + 1, name@.len() as int),
                d == name@.len() ==> ext.len() == 0,
                field@ == padded_upper(base, 8) + padded_upper(ext, 3).take(j as int),
            decreases 3 - j,
        {
            let b: u8 = if d < name.len() && j < name.len() - d - 1 {
                let c = upper_char(name[d + 1 + j]);
                c as u8
            } else {
                0x20u8
            };
            field.push(b);
            j = j + 1;
            assert(field@ =~= padded_upper(base, 8) + padded_upper(ext, 3).take(j as int));
        }
        assert(field@ =~= short_field(name@));
        Ok(ShortName { field })
    }

    /// A short name from raw base and extension bytes.
    pub fn from_u8_slice(name: &Vec<u8>, ext: &Vec<u8>) -> (r: ShortName)
        requires
            name@.len() == 8,
            ext@.len() == 3,
        ensures
            r.field@ == name@ + ext@,
    {
        let mut field = name.clone();
        let mut j: usize = 0;
        while j < 3
            invariant
                j <= 3,
                ext@.len() == 3,
                field@ == name@ + ext@.take(j as int),
            decreases 3 - j,
        {
            field.push(ext[j]);
            j = j + 1;
            assert(field@ =~= name@ + ext@.take(j as int));
        }
        assert(ext@.take(3) =~= ext@);
        ShortName { field }
    }

    /// The VFAT checksum of the 11-byte field.
    pub fn cal_chksum(&self) -> (r: u8)
        ensures
            r == chksum_of(self.field@),
    {
        chksum(&self.field)
    }
}

/// The VFAT checksum of `b`.
pub fn chksum(b: &Vec<u8>) -> (r: u8)
    ensures
        r == chksum_of(b@),
{
    let mut sum: u32 = 0;
    let mut i: usize = 0;
    while i < b.len()
        invariant
            i <= b@.len(),
            sum < 256,
            sum == chksum_of(b@.take(i as int)),
        decreases b@.len() - i,
    {
        assert(b@.take(i + 1).drop_last() =~= b@.take(i as int));
        let hi: u32 = if sum % 2 == 1 {
            128
        } else {
            0
        };
        sum = (hi + sum / 2 + b[i] as u32) % 256;
        i = i + 1;
    }
    assert(b@.take(b@.len() as int) =~= b@);
    sum as u8
}

/// The NT_RES byte for a name (see `nt_res_of`).
pub fn nt_res(name: &Vec<char>) -> (r: u8)
    ensures
        r == nt_res_of(name@),
{
    let caps = check_fname_caps(name);
    let b: u8 = if caps % 4 == 1 {
        BASE_L
    } else {
        0
    };
    let e: u8 = if caps / 4 % 4 == 1 {
        EXT_L
    } else {
        0
    };
    b + e
}

/// The end of `b[lo..hi]` once its trailing spaces are dropped.
pub fn trimmed_end(b: &Vec<u8>, lo: usize, hi: usize) -> (r: usize)
    requires
        lo <= hi <= b@.len(),
    ensures
        lo <= r <= hi,
        b@.subrange(lo as int, r as int) == trim_spaces(b@.subrange(lo as int, hi as int)),
{
    let mut end = hi;
    while end > lo && b[end - 1] == 0x20
        invariant
            lo <= end <= hi <= b@.len(),
            trim_spaces(b@.subrange(lo as int, hi as int)) == trim_spaces(
                b@.subrange(lo as int, end as int),
            ),
        decreases end,
    {
        assert(b@.subrange(lo as int, end as int).drop_last() =~= b@.subrange(
            lo as int,
            end - 1,
        ));
        end = end - 1;
    }
    assert(trim_spaces(b@.subrange(lo as int, end as int)) == b@.subrange(lo as int, end as int));
    end
}

/// The characters of `b[lo..hi]` without trailing spaces, lower-cased where `lower` holds.
fn trimmed_chars(b: &Vec<u8>, lo: usize, hi: usize, lower: bool) -> (r: Vec<char>)
    requires
        lo <= hi <= b@.len(),
    ensures
        r@ == field_chars(trim_spaces(b@.subrange(lo as int, hi as int)), lower),
{
    let end = trimmed_end(b, lo, hi);
    let mut r: Vec<char> = Vec::new();
    let mut i = lo;
    while i < end
        invariant
            lo <= i <= end <= b@.len(),
            r@ == field_chars(b@.subrange(lo as int, i as int), lower),
        decreases end - i,
    {
        let c = b[i] as char;
        let c2 = if lower {
            lower_char(c)
        } else {
            c
        };
        r.push(c2);
        i = i + 1;
        assert(r@ =~= field_chars(b@.subrange(lo as int, i as int), lower));
    }
    r
}

/// The name that a short entry shows (see `decode_short`).
pub fn short_display_name(field: &Vec<u8>, ntres: u8) -> (r: Vec<char>)
    requires
        field@.len() == 11,
    ensures
        r@ == decode_short(field@, ntres),
{
    let mut base = trimmed_chars(field, 0, 8, ntres & BASE_L != 0);
    let ext = trimmed_chars(field, 8, 11, ntres & EXT_L != 0);
    if ext.len() == 0 {
        return base;
    }
    base.push('.');
    let mut i: usize = 0;
    let ghost b0 = base@;
    while i < ext.len()
        invariant
            i <= ext@.len(),
            base@ == b0 + ext@.take(i as int),
        decreases ext@.len() - i,
    {
        base.push(ext[i]);
        i = i + 1;
        assert(base@ =~= b0 + ext@.take(i as int));
    }
    assert(ext@.take(ext@.len() as int) =~= ext@);
    assert(base@ =~= decode_short(field@, ntres));
    base
}

/// `n` spaces.
pub open spec fn spaces(n: nat) -> Seq<u8> {
    Seq::new(n, |i: int| 0x20u8)
}

proof fn lemma_trim_padded(x: Seq<u8>, n: nat)
    requires
        x.len() == 0 || x.last() != 0x20,
    ensures
        trim_spaces(x + spaces(n)) == x,
    decreases n,
{
    if n == 0 {
        assert(x + spaces(0) =~= x);
    } else {
        assert((x + spaces(n)).drop_last() =~= x + spaces((n - 1) as nat));
        lemma_trim_padded(x, (n - 1) as nat);
    }
}

/// The upper-case bytes of an ASCII part padded to `n` are those bytes and spaces.
proof fn lemma_padded_split(p: Seq<char>, n: nat)
    requires
        p.len() <= n,
    ensures
        padded_upper(p, n) == Seq::new(p.len(), |i: int| to_upper(p[i]) as u8) + spaces((n - p.len()) as nat),
{
    assert(padded_upper(p, n) =~= Seq::new(p.len(), |i: int| to_upper(p[i]) as u8) + spaces((n - p.len()) as nat));
}

/// A part of a valid name comes back from its upper-case bytes when lower
/// case is restored exactly where the part has lower-case letters only.
proof fn lemma_part_round_trip(p: Seq<char>)
    requires
        forall|i: int| 0 <= i < p.len() ==> is_ascii_char(#[trigger] p[i]) && p[i] != ' ',
        !(has_lower(p) && has_upper(p)),
    ensures
        field_chars(Seq::new(p.len(), |i: int| to_upper(p[i]) as u8), has_lower(p) && !has_upper(p)) == p,
{
    let bytes = Seq::new(p.len(), |i: int| to_upper(p[i]) as u8);
    let lower = has_lower(p) && !has_upper(p);
    assert forall|i: int| 0 <= i < p.len() implies #[trigger] field_chars(bytes, lower)[i] == p[i] by {
        let c = p[i];
        assert(is_ascii_char(c));
        if lower {
            assert(!cased_upper(c));
        } else {
            assert(!cased_lower(c)) by {
                if cased_lower(c) {
                    assert(has_lower(p));
                }
            }
        }
    }
    assert(field_chars(bytes, lower) =~= p);
}

/// Storing a valid short name as an 8.3 field with its NT_RES byte and
/// reading it back gives the name, for names without spaces whose dot, if
/// any, is followed by an extension.
pub proof fn lemma_short_name_round_trip(s: Seq<char>)
    requires
        valid_short_name(s),
        forall|i: int| 0 <= i < s.len() ==> #[trigger] s[i] != ' ',
        first_dot(s) < s.len() ==> ext_part(s).len() > 0,
    ensures
        decode_short(short_field(s), nt_res_of(s)) == s,
{
    lemma_first_dot_bounds(s);
    let base = base_part(s);
    let ext = ext_part(s);
    let field = short_field(s);
    let nt = nt_res_of(s);
    assert forall|i: int| 0 <= i < base.len() implies is_ascii_char(#[trigger] base[i]) && base[i] != ' ' by {
        assert(base[i] == s[i]);
    }
    assert forall|i: int| 0 <= i < ext.len() implies is_ascii_char(#[trigger] ext[i]) && ext[i] != ' ' by {
        assert(ext[i] == s[first_dot(s) + 1 + i]);
    }
    lemma_padded_split(base, 8);
    lemma_padded_split(ext, 3);
    let bb = Seq::new(base.len(), |i: int| to_upper(base[i]) as u8);
    let eb = Seq::new(ext.len(), |i: int| to_upper(ext[i]) as u8);
    assert(field.subrange(0, 8) =~= bb + spaces((8 - base.len()) as nat));
    assert(field.subrange(8, 11) =~= eb + spaces((3 - ext.len()) as nat));
    assert(bb.len() == 0 || bb.last() != 0x20) by {
        if bb.len() > 0 {
            let c = base[base.len() - 1];
            assert(c != ' ' && is_ascii_char(c));
        }
    }
    assert(eb.len() == 0 || eb.last() != 0x20) by {
        if eb.len() > 0 {
            let c = ext[ext.len() - 1];
            assert(c != ' ' && is_ascii_char(c));
        }
    }
    lemma_trim_padded(bb, (8 - base.len()) as nat);
    lemma_trim_padded(eb, (3 - ext.len()) as nat);
    let bl = has_lower(base) && !has_upper(base);
    let el = has_lower(ext) && !has_upper(ext);
    assert((nt & BASE_L != 0) == bl && (nt & EXT_L != 0) == el) by {
        if bl && el {
            assert((24u8 & 8u8) != 0u8 && (24u8 & 16u8) != 0u8) by (bit_vector);
        } else if bl {
            assert((8u8 & 8u8) != 0u8 && (8u8 & 16u8) == 0u8) by (bit_vector);
        } else if el {
            assert((16u8 & 8u8) == 0u8 && (16u8 & 16u8) != 0u8) by (bit_vector);
        } else {
            assert((0u8 & 8u8) == 0u8 && (0u8 & 16u8) == 0u8) by (bit_vector);
        }
    }
    lemma_part_round_trip(base);
    lemma_part_round_trip(ext);
    if ext.len() == 0 {
        assert(first_dot(s) == s.len());
        assert(base =~= s);
    } else {
        assert(s =~= base + seq!['.'] + ext);
    }
}

} // verus!
