//! Searching, splitting and number parsing on sequences of characters.
//!
//! File names, path segments and source text are handled as `&[char]`; the
//! specifications speak of `Seq<char>`.

use vstd::prelude::*;
use vstd::slice::slice_subrange;

verus! {

/// The characters of a string, in order.
pub fn to_chars(s: &str) -> (v: Vec<char>)
    ensures
        v@ == s@,
{
    let mut v: Vec<char> = Vec::new();
    for c in it: s.chars()
        invariant
            v@ == s@.take(it.index() as int),
            it.seq() == s@,
    {
        v.push(c);
    }
    v
}

/// The part of `s` from `i` up to, not including, `j`.
pub fn slice_of<'a>(s: &'a [char], i: usize, j: usize) -> (r: &'a [char])
    requires
        i <= j <= s@.len(),
    ensures
        r@ == s@.subrange(i as int, j as int),
{
    slice_subrange(s, i, j)
}

/// `needle` stands in `hay` at index `i`.
pub open spec fn occurs_at(hay: Seq<char>, needle: Seq<char>, i: int) -> bool {
    0 <= i && i + needle.len() <= hay.len() && hay.subrange(i, i + needle.len()) == needle
}

/// Index of the first occurrence of `needle` in `hay` at or after `from`.
pub open spec fn find_from(hay: Seq<char>, needle: Seq<char>, from: int) -> Option<int>
    decreases hay.len() + 1 - from,
{
    if from < 0 || from + needle.len() > hay.len() {
        None
    } else if occurs_at(hay, needle, from) {
        Some(from)
    } else {
        find_from(hay, needle, from + 1)
    }
}

/// `needle` occurs somewhere in `hay`.
pub open spec fn contains(hay: Seq<char>, needle: Seq<char>) -> bool {
    find_from(hay, needle, 0) is Some
}

/// `find_from` gives the least index at or after `from` where `needle`
/// occurs, and `None` exactly when there is no such index.
pub proof fn lemma_find_from_least(hay: Seq<char>, needle: Seq<char>, from: int)
    requires
        0 <= from,
    ensures
        match find_from(hay, needle, from) {
            Some(i) => from <= i && occurs_at(hay, needle, i) && forall|j: int|
                from <= j < i ==> !occurs_at(hay, needle, j),
            None => forall|j: int| from <= j ==> !occurs_at(hay, needle, j),
        },
    decreases hay.len() + 1 - from,
{
    if from + needle.len() > hay.len() {
    } else if occurs_at(hay, needle, from) {
    } else {
        lemma_find_from_least(hay, needle, from + 1);
    }
}

/// Whether `needle` stands in `hay` at index `i`.
pub fn matches_at(hay: &[char], needle: &[char], i: usize) -> (r: bool)
    ensures
        r == occurs_at(hay@, needle@, i as int),
{
    if needle.len() > hay.len() || i > hay.len() - needle.len() {
        return false;
    }
    let mut k: usize = 0;
    while k < needle.len()
        invariant
            k <= needle@.len(),
            i + needle@.len() <= hay@.len() <= usize::MAX,
            hay@.subrange(i as int, i + k) == needle@.take(k as int),
        decreases needle@.len() - k,
    {
        if hay[i + k] != needle[k] {
            proof {
                assert(hay@.subrange(i as int, i + needle@.len())[k as int] == hay@[i + k]);
            }
            return false;
        }
        proof {
            assert(hay@.subrange(i as int, i + k + 1) == hay@.subrange(i as int, i + k).push(
                hay@[i + k],
            ));
            assert(needle@.take(k + 1) == needle@.take(k as int).push(needle@[k as int]));
        }
        k = k + 1;
    }
    proof {
        assert(needle@.take(k as int) == needle@);
    }
    true
}

/// Index of the first occurrence of `needle` in `hay` at or after `from`.
pub fn find(hay: &[char], needle: &[char], from: usize) -> (r: Option<usize>)
    ensures
        match r {
            Some(i) => find_from(hay@, needle@, from as int) == Some(i as int),
            None => find_from(hay@, needle@, from as int) is None,
        },
{
    if needle.len() > hay.len() {
        return None;
    }
    let last: usize = hay.len() - needle.len();
    if from > last {
        return None;
    }
    let mut i: usize = from;
    loop
        invariant
            from <= i <= last,
            last + needle@.len() == hay@.len(),
            find_from(hay@, needle@, from as int) == find_from(hay@, needle@, i as int),
        decreases last - i,
    {
        if matches_at(hay, needle, i) {
            return Some(i);
        }
        if i == last {
            proof {
                assert(find_from(hay@, needle@, i + 1) is None);
            }
            return None;
        }
        i = i + 1;
    }
}

/// The pieces of `s` between occurrences of `sep`, from index `from` on.
/// An empty `sep` separates nothing.
pub open spec fn split_from(s: Seq<char>, sep: Seq<char>, from: int) -> Seq<Seq<char>>
    decreases s.len() - from,
{
    match find_from(s, sep, from) {
        Some(i) => if sep.len() > 0 && from <= i && i + sep.len() <= s.len() {
            seq![s.subrange(from, i)] + split_from(s, sep, i + sep.len())
        } else {
            seq![s.subrange(from, s.len() as int)]
        },
        None => seq![s.subrange(from, s.len() as int)],
    }
}

/// The pieces of `s` between occurrences of `sep`.
pub open spec fn split(s: Seq<char>, sep: Seq<char>) -> Seq<Seq<char>> {
    split_from(s, sep, 0)
}

/// The parts of `s` that a list of index ranges cuts out.
pub open spec fn pieces(s: Seq<char>, ranges: Seq<(usize, usize)>) -> Seq<Seq<char>> {
    Seq::new(ranges.len(), |k: int| s.subrange(ranges[k].0 as int, ranges[k].1 as int))
}

/// Every range lies within a sequence of length `len`.
pub open spec fn ranges_within(ranges: Seq<(usize, usize)>, len: nat) -> bool {
    forall|k: int| 0 <= k < ranges.len() ==> (#[trigger] ranges[k]).0 <= ranges[k].1 <= len
}

/// Splits `s` at each occurrence of `sep` and returns the index ranges of
/// the pieces.
pub fn split_ranges(s: &[char], sep: &[char]) -> (r: Vec<(usize, usize)>)
    requires
        sep@.len() > 0,
    ensures
        ranges_within(r@, s@.len()),
        pieces(s@, r@) == split(s@, sep@),
        r@.len() >= 1,
{
    let mut r: Vec<(usize, usize)> = Vec::new();
    let mut pos: usize = 0;
    let total: usize = s.len();
    loop
        invariant
            sep@.len() > 0,
            total == s@.len(),
            pos <= s@.len(),
            ranges_within(r@, s@.len()),
            split(s@, sep@) == pieces(s@, r@) + split_from(s@, sep@, pos as int),
        decreases s@.len() - pos,
    {
        let ghost before = r@;
        match find(s, sep, pos) {
            Some(i) => {
                proof {
                    lemma_find_from_least(s@, sep@, pos as int);
                }
                r.push((pos, i));
                proof {
                    assert(pieces(s@, r@) == pieces(s@, before) + seq![
                        s@.subrange(pos as int, i as int),
                    ]);
                }
                pos = i + sep.len();
            },
            None => {
                r.push((pos, s.len()));
                proof {
                    assert(pieces(s@, r@) == pieces(s@, before) + seq![
                        s@.subrange(pos as int, s@.len() as int),
                    ]);
                }
                return r;
            },
        }
    }
}

/// Value of a character as a digit: 0 to 15 for `0-9`, `a-f`, `A-F`, and 255
/// for any other character.
pub open spec fn digit_of(c: char) -> int {
    if '0' <= c && c <= '9' {
        c as u32 - '0' as u32
    } else if 'a' <= c && c <= 'f' {
        c as u32 - 'a' as u32 + 10
    } else if 'A' <= c && c <= 'F' {
        c as u32 - 'A' as u32 + 10
    } else {
        255
    }
}

/// Every character of `s` is a digit in base `radix`.
pub open spec fn all_digits(s: Seq<char>, radix: int) -> bool {
    forall|i: int| 0 <= i < s.len() ==> digit_of(#[trigger] s[i]) < radix
}

/// The number that the digits of `s` write in base `radix`, most
/// significant digit first.
pub open spec fn digits_value(s: Seq<char>, radix: int) -> int
    decreases s.len(),
{
    if s.len() == 0 {
        0
    } else {
        digits_value(s.drop_last(), radix) * radix + digit_of(s.last())
    }
}

/// The number that `s` writes in base `radix`: an optional `+`, then one or
/// more digits, the value at most `max`. `None` for anything else.
pub open spec fn parse_unsigned(s: Seq<char>, radix: int, max: int) -> Option<int> {
    let body = if s.len() > 0 && s[0] == '+' {
        s.drop_first()
    } else {
        s
    };
    if body.len() > 0 && all_digits(body, radix) && digits_value(body, radix) <= max {
        Some(digits_value(body, radix))
    } else {
        None
    }
}

/// The decimal number that `s` writes: an optional `+` or `-`, then one or
/// more digits, the value within `min ..= max`. `None` for anything else.
pub open spec fn parse_signed(s: Seq<char>, min: int, max: int) -> Option<int> {
    let negative = s.len() > 0 && s[0] == '-';
    let body = if s.len() > 0 && (s[0] == '+' || s[0] == '-') {
        s.drop_first()
    } else {
        s
    };
    let value = if negative {
        -digits_value(body, 10)
    } else {
        digits_value(body, 10)
    };
    if body.len() > 0 && all_digits(body, 10) && min <= value <= max {
        Some(value)
    } else {
        None
    }
}

/// A prefix of a digit string writes a number no larger than the whole.
pub proof fn lemma_digits_value_prefix(s: Seq<char>, radix: int, k: int)
    requires
        2 <= radix <= 16,
        all_digits(s, radix),
        0 <= k <= s.len(),
    ensures
        0 <= digits_value(s.take(k), radix) <= digits_value(s, radix),
    decreases s.len(),
{
    if s.len() == 0 {
        assert(s.take(k) == s);
    } else if k == s.len() {
        assert(s.take(k) == s);
        lemma_digits_value_prefix(s.drop_last(), radix, k - 1);
        assert(s.drop_last().take(k - 1) == s.drop_last());
        assert(digit_of(s.last()) >= 0);
        assert(digits_value(s.drop_last(), radix) * radix >= 0) by (nonlinear_arith)
            requires
                digits_value(s.drop_last(), radix) >= 0,
                radix >= 2,
        ;
    } else {
        lemma_digits_value_prefix(s.drop_last(), radix, k);
        assert(s.drop_last().take(k) == s.take(k));
        lemma_digits_value_prefix(s.drop_last(), radix, s.len() - 1);
        assert(s.drop_last().take(s.len() - 1) == s.drop_last());
        assert(digit_of(s.last()) >= 0);
        assert(digits_value(s.drop_last(), radix) * radix >= digits_value(s.drop_last(), radix))
            by (nonlinear_arith)
            requires
                digits_value(s.drop_last(), radix) >= 0,
                radix >= 2,
        ;
    }
}

/// Value of `c` as a digit, 255 if it is none.
pub fn digit_value(c: char) -> (d: u64)
    ensures
        d == digit_of(c),
{
    if c >= '0' && c <= '9' {
        (c as u32 - '0' as u32) as u64
    } else if c >= 'a' && c <= 'f' {
        (c as u32 - 'a' as u32 + 10) as u64
    } else if c >= 'A' && c <= 'F' {
        (c as u32 - 'A' as u32 + 10) as u64
    } else {
        255
    }
}

/// Reads one or more digits in base `radix`; `None` if there is none, if a
/// character is no digit, or if the value exceeds `max`.
pub fn parse_digits(s: &[char], radix: u64, max: u64) -> (r: Option<u64>)
    requires
        2 <= radix <= 16,
    ensures
        match r {
            Some(v) => s@.len() > 0 && all_digits(s@, radix as int) && v == digits_value(
                s@,
                radix as int,
            ) && v <= max,
            None => !(s@.len() > 0 && all_digits(s@, radix as int) && digits_value(
                s@,
                radix as int,
            ) <= max),
        },
{
    if s.len() == 0 {
        return None;
    }
    let mut acc: u64 = 0;
    let mut k: usize = 0;
    while k < s.len()
        invariant
            2 <= radix <= 16,
            k <= s@.len(),
            all_digits(s@.take(k as int), radix as int),
            acc == digits_value(s@.take(k as int), radix as int),
            acc <= max,
        decreases s@.len() - k,
    {
        let d = digit_value(s[k]);
        if d >= radix {
            return None;
        }
        proof {
            assert(s@.take(k + 1).drop_last() == s@.take(k as int));
            assert(s@.take(k + 1).last() == s@[k as int]);
            assert(acc * radix <= 0xffff_ffff_ffff_ffff * 16) by (nonlinear_arith)
                requires
                    acc <= 0xffff_ffff_ffff_ffff,
                    radix <= 16,
            ;
        }
        let next: u128 = acc as u128 * radix as u128 + d as u128;
        if next > max as u128 {
            proof {
                if all_digits(s@, radix as int) {
                    lemma_digits_value_prefix(s@, radix as int, k + 1);
                }
            }
            return None;
        }
        proof {
            assert forall|i: int| 0 <= i < s@.take(k + 1).len() implies digit_of(
                #[trigger] s@.take(k + 1)[i],
            ) < radix by {
                if i < k {
                    assert(s@.take(k + 1)[i] == s@.take(k as int)[i]);
                }
            }
        }
        acc = next as u64;
        k = k + 1;
    }
    proof {
        assert(s@.take(k as int) == s@);
    }
    Some(acc)
}

/// Reads an unsigned number in base `radix` that may carry a leading `+`.
pub fn parse_unsigned_in(s: &[char], radix: u64, max: u64) -> (r: Option<u64>)
    requires
        2 <= radix <= 16,
    ensures
        match r {
            Some(v) => parse_unsigned(s@, radix as int, max as int) == Some(v as int),
            None => parse_unsigned(s@, radix as int, max as int) is None,
        },
{
    if s.len() > 0 && s[0] == '+' {
        parse_digits(slice_of(s, 1, s.len()), radix, max)
    } else {
        parse_digits(s, radix, max)
    }
}

/// Reads a decimal `u32`.
pub fn parse_u32(s: &[char]) -> (r: Option<u32>)
    ensures
        match r {
            Some(v) => parse_unsigned(s@, 10, u32::MAX as int) == Some(v as int),
            None => parse_unsigned(s@, 10, u32::MAX as int) is None,
        },
{
    match parse_unsigned_in(s, 10, 0xffff_ffff) {
        Some(v) => Some(v as u32),
        None => None,
    }
}

/// Reads a decimal `i64`.
pub fn parse_i64(s: &[char]) -> (r: Option<i64>)
    ensures
        match r {
            Some(v) => parse_signed(s@, i64::MIN as int, i64::MAX as int) == Some(v as int),
            None => parse_signed(s@, i64::MIN as int, i64::MAX as int) is None,
        },
{
    if s.len() > 0 && s[0] == '-' {
        match parse_digits(slice_of(s, 1, s.len()), 10, 0x8000_0000_0000_0000) {
            Some(v) => {
                if v == 0x8000_0000_0000_0000 {
                    Some(i64::MIN)
                } else {
                    Some(-(v as i64))
                }
            },
            None => None,
        }
    } else if s.len() > 0 && s[0] == '+' {
        match parse_digits(slice_of(s, 1, s.len()), 10, 0x7fff_ffff_ffff_ffff) {
            Some(v) => Some(v as i64),
            None => None,
        }
    } else {
        match parse_digits(s, 10, 0x7fff_ffff_ffff_ffff) {
            Some(v) => Some(v as i64),
            None => None,
        }
    }
}

/// White space as Unicode defines it.
pub open spec fn is_space(c: char) -> bool {
    let u = c as u32;
    (0x09 <= u <= 0x0d) || u == 0x20 || u == 0x85 || u == 0xa0 || u == 0x1680 || (0x2000 <= u
        <= 0x200a) || u == 0x2028 || u == 0x2029 || u == 0x202f || u == 0x205f || u == 0x3000
}

/// Whether `c` is white space.
pub fn is_whitespace(c: char) -> (r: bool)
    ensures
        r == is_space(c),
{
    let u: u32 = c as u32;
    (0x09 <= u && u <= 0x0d) || u == 0x20 || u == 0x85 || u == 0xa0 || u == 0x1680 || (0x2000
        <= u && u <= 0x200a) || u == 0x2028 || u == 0x2029 || u == 0x202f || u == 0x205f || u
        == 0x3000
}

/// Index of the first character at or after `from` that is white space
/// (`want` true) or is not (`want` false); the length of `s` if there is
/// none.
pub open spec fn scan(s: Seq<char>, from: int, want: bool) -> int
    decreases s.len() - from,
{
    if from < 0 || from >= s.len() {
        s.len() as int
    } else if is_space(s[from]) == want {
        from
    } else {
        scan(s, from + 1, want)
    }
}

/// Executable form of [`scan`].
pub fn scan_for(s: &[char], from: usize, want: bool) -> (r: usize)
    requires
        from <= s@.len(),
    ensures
        r == scan(s@, from as int, want),
        from <= r <= s@.len(),
{
    let mut i: usize = from;
    while i < s.len() && is_whitespace(s[i]) != want
        invariant
            from <= i <= s@.len(),
            scan(s@, from as int, want) == scan(s@, i as int, want),
        decreases s@.len() - i,
    {
        i = i + 1;
    }
    i
}

/// `s` without the white space at its two ends.
pub open spec fn trim(s: Seq<char>) -> Seq<char> {
    s.subrange(trim_start(s), trim_end(s, trim_start(s)))
}

/// Index of the first character of `s` that is not white space.
pub open spec fn trim_start(s: Seq<char>) -> int {
    scan(s, 0, false)
}

/// Index just after the last character of `s` that is not white space, and
/// `start` if there is none at or after `start`.
pub open spec fn trim_end(s: Seq<char>, start: int) -> int
    decreases s.len(),
{
    if s.len() <= start || s.len() == 0 {
        start
    } else if !is_space(s.last()) {
        s.len() as int
    } else {
        trim_end(s.drop_last(), start)
    }
}

/// The index range of `s` that is left when the white space at its two
/// ends is taken off.
pub fn trim_range(s: &[char]) -> (r: (usize, usize))
    ensures
        r.0 <= r.1 <= s@.len(),
        r.0 == trim_start(s@),
        r.1 == trim_end(s@, trim_start(s@)),
        s@.subrange(r.0 as int, r.1 as int) == trim(s@),
{
    let start = scan_for(s, 0, false);
    let mut end: usize = s.len();
    proof {
        assert(s@.take(end as int) == s@);
    }
    while end > start && is_whitespace(s[end - 1])
        invariant
            start <= end <= s@.len(),
            trim_end(s@, start as int) == trim_end(s@.take(end as int), start as int),
        decreases end,
    {
        proof {
            assert(s@.take(end as int).drop_last() == s@.take(end - 1));
        }
        end = end - 1;
    }
    proof {
        assert(s@.take(s@.len() as int) == s@);
    }
    (start, end)
}

/// `line` without a carriage return at its end.
pub open spec fn strip_cr(line: Seq<char>) -> Seq<char> {
    if line.len() > 0 && line.last() == '\r' {
        line.drop_last()
    } else {
        line
    }
}

/// The lines of `s` from index `from` on. A line ends at a line feed; the
/// line feed, and a carriage return just before it, are not part of the
/// line. What follows the last line feed is a line only if it is not empty.
pub open spec fn lines_from(s: Seq<char>, from: int) -> Seq<Seq<char>>
    decreases s.len() - from,
{
    if from < 0 || from >= s.len() {
        seq![]
    } else {
        match find_from(s, seq!['\n'], from) {
            Some(i) => if from <= i < s.len() {
                seq![strip_cr(s.subrange(from, i))] + lines_from(s, i + 1)
            } else {
                seq![s.subrange(from, s.len() as int)]
            },
            None => seq![s.subrange(from, s.len() as int)],
        }
    }
}

/// The lines of a text.
pub open spec fn lines(s: Seq<char>) -> Seq<Seq<char>> {
    lines_from(s, 0)
}

/// The index ranges of the lines of `s`.
pub fn line_ranges(s: &[char]) -> (r: Vec<(usize, usize)>)
    ensures
        ranges_within(r@, s@.len()),
        pieces(s@, r@) == lines(s@),
        r@.len() <= s@.len(),
{
    let mut r: Vec<(usize, usize)> = Vec::new();
    let mut pos: usize = 0;
    let total: usize = s.len();
    let nl: Vec<char> = vec!['\n'];
    assert(nl@ == seq!['\n']);
    while pos < total
        invariant
            total == s@.len(),
            pos <= total,
            nl@ == seq!['\n'],
            ranges_within(r@, s@.len()),
            r@.len() <= pos,
            lines(s@) == pieces(s@, r@) + lines_from(s@, pos as int),
        decreases total - pos,
    {
        let ghost before = r@;
        match find(s, nl.as_slice(), pos) {
            Some(i) => {
                proof {
                    lemma_find_from_least(s@, nl@, pos as int);
                }
                let end: usize = if i > pos && s[i - 1] == '\r' {
                    i - 1
                } else {
                    i
                };
                r.push((pos, end));
                proof {
                    let line = s@.subrange(pos as int, i as int);
                    if i > pos && s@[i - 1] == '\r' {
                        assert(line.last() == '\r');
                        assert(line.drop_last() == s@.subrange(pos as int, end as int));
                    }
                    assert(strip_cr(line) == s@.subrange(pos as int, end as int));
                    assert(pieces(s@, r@) == pieces(s@, before) + seq![
                        s@.subrange(pos as int, end as int),
                    ]);
                }
                pos = i + 1;
            },
            None => {
                r.push((pos, total));
                proof {
                    assert(pieces(s@, r@) == pieces(s@, before) + seq![
                        s@.subrange(pos as int, total as int),
                    ]);
                    assert(lines_from(s@, total as int) == Seq::<Seq<char>>::empty());
                }
                pos = total;
            },
        }
    }
    r
}

/// Whether `x` is among the elements of `v`.
pub fn contains_u32(v: &Vec<u32>, x: u32) -> (b: bool)
    ensures
        b == v@.contains(x),
{
    let mut i: usize = 0;
    while i < v.len()
        invariant
            i <= v@.len(),
            forall|j: int| 0 <= j < i ==> v@[j] != x,
        decreases v@.len() - i,
    {
        if v[i] == x {
            return true;
        }
        i = i + 1;
    }
    false
}

/// Whether two slices hold the same characters.
pub fn same_chars(a: &[char], b: &[char]) -> (r: bool)
    ensures
        r == (a@ == b@),
{
    if a.len() != b.len() {
        return false;
    }
    let r = matches_at(a, b, 0);
    proof {
        assert(a@.subrange(0, a@.len() as int) == a@);
    }
    r
}

/// The character that writes the digit `d`, which is at most 9.
pub open spec fn digit_char(d: int) -> char {
    ((d + 48) as u8) as char
}

/// `n` in decimal, without leading zeros.
pub open spec fn decimal(n: nat) -> Seq<char>
    decreases n,
{
    if n < 10 {
        seq![digit_char(n as int)]
    } else {
        decimal(n / 10).push(digit_char((n % 10) as int))
    }
}

/// `n` in decimal, without leading zeros.
pub fn to_decimal(n: u64) -> (r: Vec<char>)
    ensures
        r@ == decimal(n as nat),
    decreases n,
{
    if n < 10 {
        let mut r: Vec<char> = Vec::new();
        r.push(((n as u8) + 48) as char);
        proof {
            assert(r@ =~= seq![digit_char(n as int)]);
        }
        r
    } else {
        let mut r = to_decimal(n / 10);
        r.push((((n % 10) as u8) + 48) as char);
        r
    }
}

/// Adds the characters of `tail` to the end of `v`.
pub fn append_chars(v: &mut Vec<char>, tail: &[char])
    ensures
        final(v)@ == old(v)@ + tail@,
{
    let mut i: usize = 0;
    while i < tail.len()
        invariant
            i <= tail@.len(),
            v@ == old(v)@ + tail@.take(i as int),
        decreases tail@.len() - i,
    {
        v.push(tail[i]);
        proof {
            assert(v@ =~= old(v)@ + tail@.take(i + 1));
        }
        i = i + 1;
    }
    proof {
        assert(tail@.take(i as int) == tail@);
    }
}

/// The characters of `prefix` followed by `n` in decimal.
pub fn numbered(prefix: &str, n: u64) -> (r: Vec<char>)
    ensures
        r@ == prefix@ + decimal(n as nat),
{
    let mut r = to_chars(prefix);
    let digits = to_decimal(n);
    append_chars(&mut r, digits.as_slice());
    r
}

} // verus!
