//! Choices offered on the command line.

use vstd::prelude::*;

verus! {

/// Whether supports are generated.
#[derive(Clone, Copy, Debug, Default, PartialEq, Eq, Structural)]
pub enum SupportMode {
    #[default]
    Auto,
    Disabled,
}

/// Whether the model is turned to a better print orientation.
#[derive(Clone, Copy, Debug, Default, PartialEq, Eq, Structural)]
pub enum OrientMode {
    #[default]
    Auto,
    Disabled,
}

/// The unit a length is written in.
#[derive(Clone, Copy, Debug, PartialEq, Eq, Structural)]
pub enum LengthUnit {
    Millimeters,
    Inches,
}

/// `s` ends with `suffix`.
pub open spec fn ends_with(s: Seq<u8>, suffix: Seq<u8>) -> bool {
    suffix.len() <= s.len() && s.subrange(s.len() - suffix.len(), s.len() as int) == suffix
}

// The suffixes are spelled in ASCII codes: m = 109, i = 105, n = 110,
// c = 99, h = 104, e = 101, s = 115.

/// How a lower-cased, trimmed length splits into its number and its unit:
/// the length of the number part and the unit. The suffixes are tried in
/// the order `mm`, `in`, `inch`, `inches`; with none, the whole text is a
/// number of millimetres.
pub open spec fn length_split(s: Seq<u8>) -> (int, LengthUnit) {
    if ends_with(s, seq![109u8, 109u8]) {
        (s.len() - 2, LengthUnit::Millimeters)
    } else if ends_with(s, seq![105u8, 110u8]) {
        (s.len() - 2, LengthUnit::Inches)
    } else if ends_with(s, seq![105u8, 110u8, 99u8, 104u8]) {
        (s.len() - 4, LengthUnit::Inches)
    } else if ends_with(s, seq![105u8, 110u8, 99u8, 104u8, 101u8, 115u8]) {
        (s.len() - 6, LengthUnit::Inches)
    } else {
        (s.len() as int, LengthUnit::Millimeters)
    }
}

fn has_suffix(s: &[u8], suffix: &Vec<u8>) -> (b: bool)
    ensures
        b == ends_with(s@, suffix@),
{
    if suffix.len() > s.len() {
        return false;
    }
    let start = s.len() - suffix.len();
    let mut i: usize = 0;
    while i < suffix.len()
        invariant
            suffix.len() <= s.len(),
            start == s.len() - suffix.len(),
            0 <= i <= suffix.len(),
            forall|k: int| 0 <= k < i ==> s@[start + k] == suffix@[k],
        decreases suffix.len() - i,
    {
        if s[start + i] != suffix[i] {
            assert(s@.subrange(start as int, s.len() as int)[i as int] != suffix@[i as int]);
            return false;
        }
        i += 1;
    }
    assert(s@.subrange(start as int, s.len() as int) =~= suffix@);
    true
}

/// Splits a lower-cased, trimmed length such as `4in` or `100mm` into the
/// length of its number part and its unit.
pub fn length_unit(value: &[u8]) -> (split: (usize, LengthUnit))
    ensures
        split.0 as int == length_split(value@).0,
        split.1 == length_split(value@).1,
{
    let mm = vec![109u8, 109u8];
    let inch_short = vec![105u8, 110u8];
    let inch = vec![105u8, 110u8, 99u8, 104u8];
    let inches = vec![105u8, 110u8, 99u8, 104u8, 101u8, 115u8];
    assert(mm@ == seq![109u8, 109u8]);
    assert(inch_short@ == seq![105u8, 110u8]);
    assert(inch@ == seq![105u8, 110u8, 99u8, 104u8]);
    assert(inches@ == seq![105u8, 110u8, 99u8, 104u8, 101u8, 115u8]);
    if has_suffix(value, &mm) {
        (value.len() - 2, LengthUnit::Millimeters)
    } else if has_suffix(value, &inch_short) {
        (value.len() - 2, LengthUnit::Inches)
    } else if has_suffix(value, &inch) {
        (value.len() - 4, LengthUnit::Inches)
    } else if has_suffix(value, &inches) {
        (value.len() - 6, LengthUnit::Inches)
    } else {
        (value.len(), LengthUnit::Millimeters)
    }
}

/// `b` with an upper-case ASCII letter turned lower-case.
pub open spec fn ascii_lower(b: u8) -> u8 {
    if 65 <= b <= 90 {
        (b + 32) as u8
    } else {
        b
    }
}

/// The length of the UTF-8 encoded white-space character that starts at
/// `i` in `s`, or 0 where none does. The white-space characters are those
/// of Unicode's White_Space property: U+0009 to U+000D, U+0020, U+0085,
/// U+00A0, U+1680, U+2000 to U+200A, U+2028, U+2029, U+202F, U+205F and
/// U+3000.
pub open spec fn space_len_at(s: Seq<u8>, i: int) -> int {
    if 0 <= i < s.len() && (s[i] == 32 || 9 <= s[i] <= 13) {
        1
    } else if 0 <= i && i + 1 < s.len() && s[i] == 0xC2 && (s[i + 1] == 0x85 || s[i + 1] == 0xA0) {
        2
    } else if 0 <= i && i + 2 < s.len() && space3(s[i], s[i + 1], s[i + 2]) {
        3
    } else {
        0
    }
}

/// The three bytes encode a white-space character.
pub open spec fn space3(a: u8, b: u8, c: u8) -> bool {
    ||| a == 0xE1 && b == 0x9A && c == 0x80
    ||| a == 0xE2 && b == 0x80 && (0x80 <= c <= 0x8A || c == 0xA8 || c == 0xA9 || c == 0xAF)
    ||| a == 0xE2 && b == 0x81 && c == 0x9F
    ||| a == 0xE3 && b == 0x80 && c == 0x80
}

/// The length of the white-space character that ends just before `j` in
/// `s` and starts no earlier than `lo`, or 0 where none does.
pub open spec fn space_len_before(s: Seq<u8>, lo: int, j: int) -> int {
    if 0 <= lo <= j - 1 && j <= s.len() && (s[j - 1] == 32 || 9 <= s[j - 1] <= 13) {
        1
    } else if 0 <= lo <= j - 2 && j <= s.len() && s[j - 2] == 0xC2 && (s[j - 1] == 0x85 || s[j - 1] == 0xA0) {
        2
    } else if 0 <= lo <= j - 3 && j <= s.len() && space3(s[j - 3], s[j - 2], s[j - 1]) {
        3
    } else {
        0
    }
}

/// Where `s` starts once the white space from `i` on is skipped.
pub open spec fn trim_start_from(s: Seq<u8>, i: int) -> int
    decreases s.len() - i,
{
    if 0 <= i < s.len() && space_len_at(s, i) > 0 {
        trim_start_from(s, i + space_len_at(s, i))
    } else {
        i
    }
}

/// Where `s` ends once the white space before `j`, down to `lo`, is skipped.
pub open spec fn trim_end_from(s: Seq<u8>, lo: int, j: int) -> int
    decreases j,
{
    if j > 0 && space_len_before(s, lo, j) > 0 {
        trim_end_from(s, lo, j - space_len_before(s, lo, j))
    } else {
        j
    }
}

fn space_len(s: &[u8], i: usize) -> (n: usize)
    requires
        i < s@.len(),
    ensures
        n == space_len_at(s@, i as int),
{
    let b = s[i];
    if b == 32 || (9 <= b && b <= 13) {
        1
    } else if s.len() - i > 1 && b == 0xC2 && (s[i + 1] == 0x85 || s[i + 1] == 0xA0) {
        2
    } else if s.len() - i > 2 && is_space3(b, s[i + 1], s[i + 2]) {
        3
    } else {
        0
    }
}

fn is_space3(a: u8, b: u8, c: u8) -> (r: bool)
    ensures
        r == space3(a, b, c),
{
    (a == 0xE1 && b == 0x9A && c == 0x80) || (a == 0xE2 && b == 0x80 && ((0x80 <= c && c <= 0x8A) || c
        == 0xA8 || c == 0xA9 || c == 0xAF)) || (a == 0xE2 && b == 0x81 && c == 0x9F) || (a == 0xE3 && b
        == 0x80 && c == 0x80)
}

fn space_len_back(s: &[u8], lo: usize, j: usize) -> (n: usize)
    requires
        lo < j <= s@.len(),
    ensures
        n == space_len_before(s@, lo as int, j as int),
{
    let b = s[j - 1];
    if b == 32 || (9 <= b && b <= 13) {
        1
    } else if j - lo >= 2 && s[j - 2] == 0xC2 && (b == 0x85 || b == 0xA0) {
        2
    } else if j - lo >= 3 && is_space3(s[j - 3], s[j - 2], b) {
        3
    } else {
        0
    }
}

/// The bounds of `s` without the white space at either end: on the bytes
/// of a valid UTF-8 text, the part that `str::trim` keeps.
pub fn trimmed_bounds(s: &[u8]) -> (bounds: (usize, usize))
    ensures
        bounds.0 == trim_start_from(s@, 0),
        bounds.1 == trim_end_from(s@, bounds.0 as int, s@.len() as int),
        bounds.0 <= bounds.1 <= s@.len(),
{
    let ghost start = trim_start_from(s@, 0);
    let mut i: usize = 0;
    while i < s.len() && space_len(s, i) > 0
        invariant
            i <= s@.len(),
            trim_start_from(s@, i as int) == start,
        decreases s@.len() - i,
    {
        i = i + space_len(s, i);
    }
    let ghost end = trim_end_from(s@, i as int, s@.len() as int);
    let mut j: usize = s.len();
    while j > i && space_len_back(s, i, j) > 0
        invariant
            i <= j <= s@.len(),
            trim_end_from(s@, i as int, j as int) == end,
        decreases j,
    {
        j = j - space_len_back(s, i, j);
    }
    assert(j == i ==> space_len_before(s@, i as int, j as int) == 0);
    (i, j)
}

/// The bytes of `s` from `start` to `end`, with every upper-case ASCII
/// letter turned lower-case, as `to_ascii_lowercase` does.
pub fn ascii_lowercase(s: &[u8], start: usize, end: usize) -> (lower: Vec<u8>)
    requires
        start <= end <= s@.len(),
    ensures
        lower@ == s@.subrange(start as int, end as int).map_values(|b: u8| ascii_lower(b)),
{
    let ghost part = s@.subrange(start as int, end as int);
    let mut lower: Vec<u8> = Vec::new();
    let mut i: usize = start;
    while i < end
        invariant
            start <= i <= end <= s@.len(),
            part == s@.subrange(start as int, end as int),
            lower@ == part.take(i - start).map_values(|b: u8| ascii_lower(b)),
        decreases end - i,
    {
        let b = s[i];
        let c = if 65 <= b && b <= 90 {
            b + 32
        } else {
            b
        };
        lower.push(c);
        assert(part[i - start] == b);
        assert(part.take(i + 1 - start).map_values(|b: u8| ascii_lower(b)) =~= part.take(i - start).map_values(
            |b: u8| ascii_lower(b),
        ).push(c));
        i += 1;
    }
    assert(part.take(end - start) =~= part);
    lower
}

/// A length as typed: without the white space at its ends, and lower-cased.
pub fn normalize_length(raw: &[u8]) -> (value: Vec<u8>)
    ensures
        value@ == raw@.subrange(
            trim_start_from(raw@, 0),
            trim_end_from(raw@, trim_start_from(raw@, 0), raw@.len() as int),
        ).map_values(|b: u8| ascii_lower(b)),
{
    let (start, end) = trimmed_bounds(raw);
    ascii_lowercase(raw, start, end)
}

} // verus!
