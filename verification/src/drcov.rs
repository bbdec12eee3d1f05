//! Reader for DrCov traces, version 2.
//!
//! A trace starts with a text header: a version line, an optional flavor
//! line, the module table with one row per module, and the line that
//! announces the basic-block table. The table itself follows as binary
//! records of eight bytes: the offset of the block in its module (`u32`),
//! its size (`u16`) and the id of the module (`u16`), little endian.

use crate::paths::ends_with_path;
use crate::paths::path_ends_with;
use crate::paths::string_from_chars;
use crate::paths::string_from_utf8;
use crate::search::first_index;
use crate::text::find;
use crate::text::find_from;
use crate::text::matches_at;
use crate::text::occurs_at;
use crate::text::parse_unsigned;
use crate::text::parse_unsigned_in;
use crate::text::pieces;
use crate::text::slice_of;
use crate::text::split;
use crate::text::split_ranges;
use crate::text::to_chars;
use vstd::prelude::*;
use vstd::slice::slice_subrange;
use vstd::utf8::decode_utf8;
use vstd::utf8::valid_utf8;

verus! {

/// A basic block by the addresses of its first byte and of the byte after
/// its last.
#[derive(Clone, Copy, Debug, PartialEq, Eq, Structural)]
pub struct DrCovBasicBlock {
    /// Start of this basic block
    pub start: u64,
    /// End of this basic block
    pub end: u64,
}

impl DrCovBasicBlock {
    /// The block from `start` to `end`.
    #[must_use]
    pub fn new(start: u64, end: u64) -> (r: Self)
        ensures
            r.start == start,
            r.end == end,
    {
        Self { start, end }
    }

    /// The block of `size` bytes at `start`.
    #[must_use]
    pub fn with_size(start: u64, size: u16) -> (r: Self)
        requires
            start + size <= u64::MAX,
        ensures
            r.start == start,
            r.end == start + size,
    {
        Self::new(start, start + size as u64)
    }
}

/// A record of the basic-block table.
#[derive(Clone, Copy, Debug, PartialEq, Eq, Hash, Structural)]
pub struct DrCovBasicBlockEntry {
    /// Offset of the block from the base of its module
    pub start: u32,
    /// Size of the block
    pub size: u16,
    /// The id of the module the block is in
    pub mod_id: u16,
}

/// The record that the eight bytes of `bytes` from index `at` encode.
pub open spec fn entry_at(bytes: Seq<u8>, at: int) -> DrCovBasicBlockEntry {
    DrCovBasicBlockEntry {
        start: (bytes[at] + 256 * bytes[at + 1] + 65536 * bytes[at + 2] + 16777216 * bytes[at
            + 3]) as u32,
        size: (bytes[at + 4] + 256 * bytes[at + 5]) as u16,
        mod_id: (bytes[at + 6] + 256 * bytes[at + 7]) as u16,
    }
}

/// The eight bytes that encode `entry`.
pub open spec fn entry_bytes(entry: DrCovBasicBlockEntry) -> Seq<u8> {
    seq![
        (entry.start % 256) as u8,
        (entry.start / 256 % 256) as u8,
        (entry.start / 65536 % 256) as u8,
        (entry.start / 16777216) as u8,
        (entry.size % 256) as u8,
        (entry.size / 256) as u8,
        (entry.mod_id % 256) as u8,
        (entry.mod_id / 256) as u8,
    ]
}

/// The array of the eight bytes that encode `entry`.
pub open spec fn encoded(entry: DrCovBasicBlockEntry) -> [u8; 8] {
    [
        (entry.start % 256) as u8,
        (entry.start / 256 % 256) as u8,
        (entry.start / 65536 % 256) as u8,
        (entry.start / 16777216) as u8,
        (entry.size % 256) as u8,
        (entry.size / 256) as u8,
        (entry.mod_id % 256) as u8,
        (entry.mod_id / 256) as u8,
    ]
}

impl DrCovBasicBlockEntry {
    /// Decodes the record that stands in `bytes` at index `at`.
    pub fn decode(bytes: &[u8], at: usize) -> (r: Self)
        requires
            at + 8 <= bytes@.len(),
        ensures
            r == entry_at(bytes@, at as int),
    {
        DrCovBasicBlockEntry {
            start: bytes[at] as u32 + 256 * (bytes[at + 1] as u32) + 65536 * (bytes[at + 2] as u32)
                + 16777216 * (bytes[at + 3] as u32),
            size: bytes[at + 4] as u16 + 256 * (bytes[at + 5] as u16),
            mod_id: bytes[at + 6] as u16 + 256 * (bytes[at + 7] as u16),
        }
    }

    /// Encodes the record.
    pub fn encode(&self) -> (r: [u8; 8])
        ensures
            r == encoded(*self),
            r@ == entry_bytes(*self),
            entry_at(r@, 0) == *self,
    {
        let r: [u8; 8] = [
            (self.start % 256) as u8,
            (self.start / 256 % 256) as u8,
            (self.start / 65536 % 256) as u8,
            (self.start / 16777216) as u8,
            (self.size % 256) as u8,
            (self.size / 256) as u8,
            (self.mod_id % 256) as u8,
            (self.mod_id / 256) as u8,
        ];
        proof {
            assert(r@ =~= entry_bytes(*self));
        }
        r
    }
}

impl From<&[u8; 8]> for DrCovBasicBlockEntry {
    fn from(value: &[u8; 8]) -> (r: Self) {
        Self::decode(value.as_slice(), 0)
    }
}

impl vstd::std_specs::convert::FromSpecImpl<&[u8; 8]> for DrCovBasicBlockEntry {
    open spec fn obeys_from_spec() -> bool {
        true
    }

    open spec fn from_spec(value: &[u8; 8]) -> Self {
        entry_at(value@, 0)
    }
}

impl From<DrCovBasicBlockEntry> for [u8; 8] {
    fn from(value: DrCovBasicBlockEntry) -> (r: Self) {
        value.encode()
    }
}

impl vstd::std_specs::convert::FromSpecImpl<DrCovBasicBlockEntry> for [u8; 8] {
    open spec fn obeys_from_spec() -> bool {
        true
    }

    open spec fn from_spec(value: DrCovBasicBlockEntry) -> Self {
        encoded(value)
    }
}

/// A row of the module table.
#[derive(Debug, Clone)]
pub struct DrCovModuleEntry {
    /// The index of this module
    pub id: u16,
    /// Base of this module
    pub base: u64,
    /// End address of this module
    pub end: u64,
    /// Entry (can be zero)
    pub entry: usize,
    /// The path of this module
    pub path: String,
}

/// Mathematical content of a [`DrCovModuleEntry`].
pub struct ModuleEntryView {
    pub id: u16,
    pub base: u64,
    pub end: u64,
    pub entry: usize,
    pub path: Seq<char>,
}

impl View for DrCovModuleEntry {
    type V = ModuleEntryView;

    open spec fn view(&self) -> ModuleEntryView {
        ModuleEntryView {
            id: self.id,
            base: self.base,
            end: self.end,
            entry: self.entry,
            path: self.path@,
        }
    }
}

/// The field of a module row that could not be read.
#[derive(Clone, Copy, Debug, PartialEq, Eq, Structural)]
pub enum ModuleField {
    Id,
    Base,
    End,
    Entry,
    Path,
}

/// Why a trace could not be read. `offset` is the index in the trace of the
/// first byte of the line that is at fault.
#[derive(Clone, Copy, Debug, PartialEq, Eq, Structural)]
pub enum DrCovError {
    /// The first line is not `DRCOV VERSION: 2`.
    BadHeader { offset: usize },
    /// The line that should announce the module table does not.
    BadModuleTable { offset: usize },
    /// The line that should name the columns of the module table does not.
    BadModuleColumns { offset: usize },
    /// A row of the module table lacks a field or holds one that cannot be
    /// read.
    BadModuleEntry { offset: usize, field: ModuleField },
    /// The line that should announce the basic-block table does not.
    BadBbTable { offset: usize },
    /// The trace ends before the last announced record of the basic-block
    /// table.
    ShortBbTable { offset: usize },
}

/// Bytes read as characters, one for one.
pub open spec fn as_chars(bytes: Seq<u8>) -> Seq<char> {
    Seq::new(bytes.len(), |i: int| bytes[i] as char)
}

/// Characters below 256 written back as bytes, one for one.
pub open spec fn as_bytes(chars: Seq<char>) -> Seq<u8> {
    Seq::new(chars.len(), |i: int| chars[i] as u8)
}

/// Index just after the line that starts at `pos`: after its line feed, or
/// the end of the trace if no line feed follows.
pub open spec fn line_end(bytes: Seq<u8>, pos: int) -> int
    decreases bytes.len() - pos,
{
    if pos < 0 || pos >= bytes.len() {
        bytes.len() as int
    } else if bytes[pos] == 10 {
        pos + 1
    } else {
        line_end(bytes, pos + 1)
    }
}

/// The line that starts at `pos`, with its line feed if it has one.
pub open spec fn line_at(bytes: Seq<u8>, pos: int) -> Seq<char> {
    as_chars(bytes.subrange(pos, line_end(bytes, pos)))
}

impl DrCovError {
    /// Index in the trace of the first byte of the line that is at fault.
    pub open spec fn at(self) -> usize {
        match self {
            DrCovError::BadHeader { offset } => offset,
            DrCovError::BadModuleTable { offset } => offset,
            DrCovError::BadModuleColumns { offset } => offset,
            DrCovError::BadModuleEntry { offset, field } => offset,
            DrCovError::BadBbTable { offset } => offset,
            DrCovError::ShortBbTable { offset } => offset,
        }
    }

    /// Index in the trace of the first byte of the line that is at fault.
    pub fn offset(&self) -> (r: usize)
        ensures
            r == self.at(),
    {
        match self {
            DrCovError::BadHeader { offset } => *offset,
            DrCovError::BadModuleTable { offset } => *offset,
            DrCovError::BadModuleColumns { offset } => *offset,
            DrCovError::BadModuleEntry { offset, field } => *offset,
            DrCovError::BadBbTable { offset } => *offset,
            DrCovError::ShortBbTable { offset } => *offset,
        }
    }
}

/// The line of a trace that an error points at, with its line feed if it
/// has one; nothing where the error points past the end of the trace.
pub open spec fn faulty_line(bytes: Seq<u8>, error: DrCovError) -> Seq<char> {
    if error.at() <= bytes.len() {
        line_at(bytes, error.at() as int)
    } else {
        Seq::empty()
    }
}

/// A lower-case letter of ASCII turned into its capital; any other
/// character as it is.
pub open spec fn upper_char(c: char) -> char {
    if 'a' <= c && c <= 'z' {
        ((c as u8) - 32) as char
    } else {
        c
    }
}

/// `s` with its ASCII letters capitalised.
pub open spec fn upper(s: Seq<char>) -> Seq<char> {
    Seq::new(s.len(), |i: int| upper_char(s[i]))
}

/// White space of ASCII: space, tab, line feed, vertical tab, form feed,
/// carriage return.
pub open spec fn is_ascii_space(c: char) -> bool {
    c == ' ' || ('\t' <= c && c <= '\r')
}

/// Index of the first character of `s` at or after `from` that is no ASCII
/// white space; the length of `s` if there is none.
pub open spec fn ascii_trim_start(s: Seq<char>, from: int) -> int
    decreases s.len() - from,
{
    if from < 0 || from >= s.len() {
        s.len() as int
    } else if !is_ascii_space(s[from]) {
        from
    } else {
        ascii_trim_start(s, from + 1)
    }
}

/// Index just after the last of the first `upto` characters of `s` that is
/// no ASCII white space; `start` if there is none at or after `start`.
pub open spec fn ascii_trim_end(s: Seq<char>, start: int, upto: int) -> int
    decreases upto,
{
    if upto <= start || upto <= 0 || upto > s.len() {
        start
    } else if !is_ascii_space(s[upto - 1]) {
        upto
    } else {
        ascii_trim_end(s, start, upto - 1)
    }
}

/// `s` without the ASCII white space at its two ends.
pub open spec fn ascii_trim(s: Seq<char>) -> Seq<char> {
    let start = ascii_trim_start(s, 0);
    s.subrange(start, ascii_trim_end(s, start, s.len() as int))
}

/// The first line of a trace must read `DRCOV VERSION: 2`, in capitals or
/// not, white space at its ends aside.
pub open spec fn is_version_line(line: Seq<char>) -> bool {
    ascii_trim(upper(line)) == "DRCOV VERSION: 2"@
}

/// A line that starts with `DRCOV FLAVOR:`, in capitals or not.
pub open spec fn is_flavor_line(line: Seq<char>) -> bool {
    occurs_at(upper(line), "DRCOV FLAVOR:"@, 0)
}

/// The number of modules that the line `Module Table: version 2, count N`
/// announces.
pub open spec fn module_count(line: Seq<char>) -> Option<int> {
    let marker = "Module Table: version 2, count "@;
    if occurs_at(line, marker, 0) {
        parse_unsigned(
            ascii_trim(line.subrange(marker.len() as int, line.len() as int)),
            10,
            usize::MAX as int,
        )
    } else {
        None
    }
}

/// The line that names the columns of the module table.
pub open spec fn is_columns_line(line: Seq<char>) -> bool {
    occurs_at(line, "Columns: id, base, end, entry, path"@, 0)
}

/// The number of records that the line `BB Table: M bbs` announces.
pub open spec fn bb_count(line: Seq<char>) -> Option<int> {
    let marker = "BB Table: "@;
    if occurs_at(line, marker, 0) {
        let stop = match find_from(line, seq![' '], marker.len() as int) {
            Some(i) => i,
            None => line.len() as int,
        };
        parse_unsigned(line.subrange(marker.len() as int, stop), 10, usize::MAX as int)
    } else {
        None
    }
}

/// A hexadecimal number with the prefix `0x`.
pub open spec fn hex_field(field: Seq<char>, max: int) -> Option<int> {
    if occurs_at(field, seq!['0', 'x'], 0) {
        parse_unsigned(field.subrange(2, field.len() as int), 16, max)
    } else {
        None
    }
}

/// The part of a path field that is the path: the field without white
/// space at its ends and without the double quotes around it, if it has
/// both.
pub open spec fn unquoted(field: Seq<char>) -> Seq<char> {
    let t = ascii_trim(field);
    if t.len() >= 2 && t[0] == '"' && t.last() == '"' {
        t.subrange(1, t.len() - 1)
    } else {
        t
    }
}

/// The path that a path field holds, if its bytes are UTF-8.
pub open spec fn path_field(field: Seq<char>) -> Option<Seq<char>> {
    let raw = as_bytes(unquoted(field));
    if valid_utf8(raw) {
        Some(decode_utf8(raw))
    } else {
        None
    }
}

/// The module that a row of the module table describes, or the first field
/// that is missing or cannot be read. The fields are separated by a comma
/// and a space: id (decimal), base, end and entry (hexadecimal), path.
pub open spec fn module_row(line: Seq<char>) -> Result<ModuleEntryView, ModuleField> {
    let fields = split(line, seq![',', ' ']);
    match parse_unsigned(fields[0], 10, u16::MAX as int) {
        None => Err(ModuleField::Id),
        Some(id) => if fields.len() < 2 {
            Err(ModuleField::Base)
        } else {
            match hex_field(fields[1], u64::MAX as int) {
                None => Err(ModuleField::Base),
                Some(base) => if fields.len() < 3 {
                    Err(ModuleField::End)
                } else {
                    match hex_field(fields[2], u64::MAX as int) {
                        None => Err(ModuleField::End),
                        Some(end) => if fields.len() < 4 {
                            Err(ModuleField::Entry)
                        } else {
                            match hex_field(fields[3], usize::MAX as int) {
                                None => Err(ModuleField::Entry),
                                Some(entry) => if fields.len() < 5 {
                                    Err(ModuleField::Path)
                                } else {
                                    match path_field(fields[4]) {
                                        None => Err(ModuleField::Path),
                                        Some(path) => Ok(
                                            ModuleEntryView {
                                                id: id as u16,
                                                base: base as u64,
                                                end: end as u64,
                                                entry: entry as usize,
                                                path,
                                            },
                                        ),
                                    }
                                },
                            }
                        },
                    }
                },
            }
        },
    }
}

/// Reads `count` rows of the module table from `pos` on and adds them to
/// `acc`; gives the modules and the index after the last row.
pub open spec fn rows_from(bytes: Seq<u8>, pos: int, count: int, acc: Seq<ModuleEntryView>)
    -> Result<(Seq<ModuleEntryView>, int), DrCovError>
    decreases count,
{
    if count <= 0 {
        Ok((acc, pos))
    } else {
        match module_row(line_at(bytes, pos)) {
            Err(field) => Err(DrCovError::BadModuleEntry { offset: pos as usize, field }),
            Ok(m) => rows_from(bytes, line_end(bytes, pos), count - 1, acc.push(m)),
        }
    }
}

/// What a trace holds: its modules and the records of its basic-block
/// table.
pub struct TraceContent {
    pub modules: Seq<ModuleEntryView>,
    pub blocks: Seq<DrCovBasicBlockEntry>,
}

/// The basic-block table that follows its announcement at `pos`.
pub open spec fn table_from(bytes: Seq<u8>, pos: int, modules: Seq<ModuleEntryView>) -> Result<
    TraceContent,
    DrCovError,
> {
    match bb_count(line_at(bytes, pos)) {
        None => Err(DrCovError::BadBbTable { offset: pos as usize }),
        Some(count) => {
            let first = line_end(bytes, pos);
            if first + 8 * count > bytes.len() {
                Err(DrCovError::ShortBbTable { offset: first as usize })
            } else {
                Ok(
                    TraceContent {
                        modules,
                        blocks: Seq::new(count as nat, |k: int| entry_at(bytes, first + 8 * k)),
                    },
                )
            }
        },
    }
}

/// The module table that starts at `pos`, and what follows it.
pub open spec fn modules_from(bytes: Seq<u8>, pos: int) -> Result<TraceContent, DrCovError> {
    match module_count(line_at(bytes, pos)) {
        None => Err(DrCovError::BadModuleTable { offset: pos as usize }),
        Some(count) => {
            let columns = line_end(bytes, pos);
            if !is_columns_line(line_at(bytes, columns)) {
                Err(DrCovError::BadModuleColumns { offset: columns as usize })
            } else {
                match rows_from(
                    bytes,
                    line_end(bytes, columns),
                    count,
                    Seq::<ModuleEntryView>::empty(),
                ) {
                    Err(e) => Err(e),
                    Ok((modules, after)) => table_from(bytes, after, modules),
                }
            }
        },
    }
}

/// What the trace `bytes` holds, or why it cannot be read.
pub open spec fn parse_trace(bytes: Seq<u8>) -> Result<TraceContent, DrCovError> {
    if !is_version_line(line_at(bytes, 0)) {
        Err(DrCovError::BadHeader { offset: 0 })
    } else {
        let second = line_end(bytes, 0);
        if is_flavor_line(line_at(bytes, second)) {
            modules_from(bytes, line_end(bytes, second))
        } else {
            modules_from(bytes, second)
        }
    }
}

/// Reads the line that starts at `pos`; gives its characters and the index
/// after it.
fn read_line(bytes: &[u8], pos: usize) -> (r: (Vec<char>, usize))
    requires
        pos <= bytes@.len(),
    ensures
        r.0@ == line_at(bytes@, pos as int),
        r.1 == line_end(bytes@, pos as int),
        pos <= r.1 <= bytes@.len(),
        r.0@.len() == r.1 - pos,
{
    let mut line: Vec<char> = Vec::new();
    let mut i: usize = pos;
    while i < bytes.len() && bytes[i] != 10
        invariant
            pos <= i <= bytes@.len(),
            line_end(bytes@, pos as int) == line_end(bytes@, i as int),
            line@ == as_chars(bytes@.subrange(pos as int, i as int)),
        decreases bytes@.len() - i,
    {
        line.push(bytes[i] as char);
        proof {
            assert(line@ =~= as_chars(bytes@.subrange(pos as int, i + 1)));
        }
        i = i + 1;
    }
    if i < bytes.len() {
        line.push(bytes[i] as char);
        proof {
            assert(line@ =~= as_chars(bytes@.subrange(pos as int, i + 1)));
        }
        i = i + 1;
    }
    (line, i)
}

/// The text of the line of a trace that an error points at.
pub fn line_at_fault(bytes: &[u8], error: &DrCovError) -> (r: String)
    ensures
        r@ == faulty_line(bytes@, *error),
{
    let at = error.offset();
    if at <= bytes.len() {
        let line = read_line(bytes, at);
        string_from_chars(line.0.as_slice())
    } else {
        String::new()
    }
}

/// `s` with its ASCII letters capitalised.
fn to_upper(s: &[char]) -> (r: Vec<char>)
    ensures
        r@ == upper(s@),
{
    let mut r: Vec<char> = Vec::new();
    let mut i: usize = 0;
    while i < s.len()
        invariant
            i <= s@.len(),
            r@ == upper(s@.take(i as int)),
        decreases s@.len() - i,
    {
        let c = s[i];
        let u = if c >= 'a' && c <= 'z' {
            ((c as u8) - 32) as char
        } else {
            c
        };
        r.push(u);
        proof {
            assert(r@ =~= upper(s@.take(i + 1)));
        }
        i = i + 1;
    }
    proof {
        assert(s@.take(i as int) == s@);
    }
    r
}

/// Whether `c` is ASCII white space.
fn ascii_space(c: char) -> (r: bool)
    ensures
        r == is_ascii_space(c),
{
    c == ' ' || (c >= '\t' && c <= '\r')
}

/// The index range of `s` that is left when the ASCII white space at its
/// two ends is taken off.
fn ascii_trim_range(s: &[char]) -> (r: (usize, usize))
    ensures
        r.0 <= r.1 <= s@.len(),
        s@.subrange(r.0 as int, r.1 as int) == ascii_trim(s@),
        r.0 == ascii_trim_start(s@, 0),
        r.1 == ascii_trim_end(s@, r.0 as int, s@.len() as int),
{
    let mut start: usize = 0;
    while start < s.len() && ascii_space(s[start])
        invariant
            start <= s@.len(),
            ascii_trim_start(s@, 0) == ascii_trim_start(s@, start as int),
        decreases s@.len() - start,
    {
        start = start + 1;
    }
    let mut end: usize = s.len();
    while end > start && ascii_space(s[end - 1])
        invariant
            start <= end <= s@.len(),
            ascii_trim_end(s@, start as int, s@.len() as int) == ascii_trim_end(
                s@,
                start as int,
                end as int,
            ),
        decreases end,
    {
        end = end - 1;
    }
    (start, end)
}

/// Reads a hexadecimal number with the prefix `0x`.
fn read_hex(field: &[char], max: u64) -> (r: Option<u64>)
    ensures
        match r {
            Some(v) => hex_field(field@, max as int) == Some(v as int),
            None => hex_field(field@, max as int) is None,
        },
{
    let prefix: Vec<char> = vec!['0', 'x'];
    assert(prefix@ == seq!['0', 'x']);
    if !matches_at(field, prefix.as_slice(), 0) {
        return None;
    }
    parse_unsigned_in(slice_of(field, 2, field.len()), 16, max)
}

/// Reads the path of a module from its field. `field` holds the bytes of
/// the trace from `at` on, read as characters.
fn read_path(bytes: &[u8], at: usize, field: &[char]) -> (r: Option<String>)
    requires
        at + field@.len() <= bytes@.len(),
        field@ == as_chars(bytes@.subrange(at as int, at + field@.len())),
    ensures
        match r {
            Some(p) => path_field(field@) == Some(p@),
            None => path_field(field@) is None,
        },
{
    let total = bytes.len();
    let (a, b) = ascii_trim_range(field);
    let quoted = b - a >= 2 && field[a] == '"' && field[b - 1] == '"';
    let (from, to) = if quoted {
        (a + 1, b - 1)
    } else {
        (a, b)
    };
    proof {
        let t = ascii_trim(field@);
        assert(t == field@.subrange(a as int, b as int));
        if quoted {
            assert(t.subrange(1, t.len() - 1) == field@.subrange(from as int, to as int));
        }
        assert(unquoted(field@) == field@.subrange(from as int, to as int));
        assert(as_bytes(field@.subrange(from as int, to as int)) =~= bytes@.subrange(
            at + from,
            at + to,
        ));
    }
    string_from_utf8(slice_subrange(bytes, at + from, at + to))
}

/// Reads a row of the module table. `line` holds the bytes of the trace
/// from `at` on, read as characters.
fn read_module_row(bytes: &[u8], at: usize, line: &[char]) -> (r: Result<
    DrCovModuleEntry,
    ModuleField,
>)
    requires
        at + line@.len() <= bytes@.len(),
        line@ == as_chars(bytes@.subrange(at as int, at + line@.len())),
    ensures
        match r {
            Ok(m) => module_row(line@) matches Ok(row) && row == m@,
            Err(f) => module_row(line@) matches Err(field) && field == f,
        },
{
    let total = bytes.len();
    let sep: Vec<char> = vec![',', ' '];
    assert(sep@ == seq![',', ' ']);
    let ranges = split_ranges(line, sep.as_slice());
    let ghost fields = split(line@, sep@);
    proof {
        assert(pieces(line@, ranges@) == fields);
        assert forall|k: int| 0 <= k < ranges@.len() implies #[trigger] fields[k]
            == line@.subrange(ranges@[k].0 as int, ranges@[k].1 as int) by {
            assert(pieces(line@, ranges@)[k] == line@.subrange(
                ranges@[k].0 as int,
                ranges@[k].1 as int,
            ));
        }
    }
    let id = match parse_unsigned_in(slice_of(line, ranges[0].0, ranges[0].1), 10, 0xffff) {
        Some(v) => v as u16,
        None => {
            return Err(ModuleField::Id);
        },
    };
    if ranges.len() < 2 {
        return Err(ModuleField::Base);
    }
    let base = match read_hex(slice_of(line, ranges[1].0, ranges[1].1), u64::MAX) {
        Some(v) => v,
        None => {
            return Err(ModuleField::Base);
        },
    };
    if ranges.len() < 3 {
        return Err(ModuleField::End);
    }
    let end = match read_hex(slice_of(line, ranges[2].0, ranges[2].1), u64::MAX) {
        Some(v) => v,
        None => {
            return Err(ModuleField::End);
        },
    };
    if ranges.len() < 4 {
        return Err(ModuleField::Entry);
    }
    let entry = match read_hex(slice_of(line, ranges[3].0, ranges[3].1), usize::MAX as u64) {
        Some(v) => v as usize,
        None => {
            return Err(ModuleField::Entry);
        },
    };
    if ranges.len() < 5 {
        return Err(ModuleField::Path);
    }
    let field = slice_of(line, ranges[4].0, ranges[4].1);
    proof {
        assert(field@ =~= as_chars(
            bytes@.subrange(at + ranges@[4].0, at + ranges@[4].0 + field@.len()),
        ));
    }
    match read_path(bytes, at + ranges[4].0, field) {
        Some(path) => Ok(DrCovModuleEntry { id, base, end, entry, path }),
        None => Err(ModuleField::Path),
    }
}

/// Reads the number of modules from the line that announces the module
/// table.
fn read_module_count(line: &[char]) -> (r: Option<usize>)
    ensures
        match r {
            Some(n) => module_count(line@) == Some(n as int),
            None => module_count(line@) is None,
        },
{
    let marker = to_chars("Module Table: version 2, count ");
    if !matches_at(line, marker.as_slice(), 0) {
        return None;
    }
    let rest = slice_of(line, marker.len(), line.len());
    let (a, b) = ascii_trim_range(rest);
    match parse_unsigned_in(slice_of(rest, a, b), 10, usize::MAX as u64) {
        Some(n) => Some(n as usize),
        None => None,
    }
}

/// Reads the number of records from the line that announces the
/// basic-block table.
fn read_bb_count(line: &[char]) -> (r: Option<usize>)
    ensures
        match r {
            Some(n) => bb_count(line@) == Some(n as int),
            None => bb_count(line@) is None,
        },
{
    let marker = to_chars("BB Table: ");
    if !matches_at(line, marker.as_slice(), 0) {
        return None;
    }
    let space: Vec<char> = vec![' '];
    assert(space@ == seq![' ']);
    let stop = match find(line, space.as_slice(), marker.len()) {
        Some(i) => {
            proof {
                crate::text::lemma_find_from_least(line@, space@, marker@.len() as int);
            }
            i
        },
        None => line.len(),
    };
    match parse_unsigned_in(slice_of(line, marker.len(), stop), 10, usize::MAX as u64) {
        Some(n) => Some(n as usize),
        None => None,
    }
}

/// The modules and basic-block records of a trace.
#[derive(Debug)]
pub struct DrCovReader {
    /// The modules of the trace
    pub module_entries: Vec<DrCovModuleEntry>,
    /// The records of the basic-block table. [`Self::basic_blocks`] gives
    /// the blocks by their addresses.
    pub basic_block_entries: Vec<DrCovBasicBlockEntry>,
}

/// The mathematical content of a list of modules.
pub open spec fn module_views(modules: Seq<DrCovModuleEntry>) -> Seq<ModuleEntryView> {
    Seq::new(modules.len(), |i: int| modules[i]@)
}

impl View for DrCovReader {
    type V = TraceContent;

    open spec fn view(&self) -> TraceContent {
        TraceContent {
            modules: module_views(self.module_entries@),
            blocks: self.basic_block_entries@,
        }
    }
}

impl DrCovReader {
    /// Reads a trace from its bytes.
    pub fn read(bytes: &[u8]) -> (r: Result<Self, DrCovError>)
        ensures
            match r {
                Ok(reader) => parse_trace(bytes@) matches Ok(content) && content == reader@,
                Err(e) => parse_trace(bytes@) matches Err(why) && why == e,
            },
    {
        let (header, second) = read_line(bytes, 0);
        let version = to_chars("DRCOV VERSION: 2");
        let shouted = to_upper(header.as_slice());
        let (a, b) = ascii_trim_range(shouted.as_slice());
        if !(b - a == version.len() && matches_at(shouted.as_slice(), version.as_slice(), a)) {
            return Err(DrCovError::BadHeader { offset: 0 });
        }
        let (next, third) = read_line(bytes, second);
        let flavor = to_chars("DRCOV FLAVOR:");
        let next_shouted = to_upper(next.as_slice());
        let table_at = if matches_at(next_shouted.as_slice(), flavor.as_slice(), 0) {
            third
        } else {
            second
        };
        Self::read_modules(bytes, table_at)
    }

    /// Reads the module table that starts at `pos`, and what follows it.
    fn read_modules(bytes: &[u8], pos: usize) -> (r: Result<Self, DrCovError>)
        requires
            pos <= bytes@.len(),
        ensures
            match r {
                Ok(reader) => modules_from(bytes@, pos as int) matches Ok(content) && content
                    == reader@,
                Err(e) => modules_from(bytes@, pos as int) matches Err(why) && why == e,
            },
    {
        let (line, columns_at) = read_line(bytes, pos);
        let count = match read_module_count(line.as_slice()) {
            Some(n) => n,
            None => {
                return Err(DrCovError::BadModuleTable { offset: pos });
            },
        };
        let (columns, rows_at) = read_line(bytes, columns_at);
        let expected = to_chars("Columns: id, base, end, entry, path");
        if !matches_at(columns.as_slice(), expected.as_slice(), 0) {
            return Err(DrCovError::BadModuleColumns { offset: columns_at });
        }
        let mut modules: Vec<DrCovModuleEntry> = Vec::new();
        let mut at: usize = rows_at;
        let mut k: usize = 0;
        proof {
            assert(module_views(modules@) =~= Seq::<ModuleEntryView>::empty());
        }
        while k < count
            invariant
                k <= count,
                at <= bytes@.len(),
                modules_from(bytes@, pos as int) == match rows_from(
                    bytes@,
                    rows_at as int,
                    count as int,
                    Seq::<ModuleEntryView>::empty(),
                ) {
                    Err(e) => Err(e),
                    Ok((found, after)) => table_from(bytes@, after, found),
                },
                rows_from(bytes@, rows_at as int, count as int, Seq::<ModuleEntryView>::empty())
                    == rows_from(bytes@, at as int, count - k, module_views(modules@)),
            decreases count - k,
        {
            let (row, after) = read_line(bytes, at);
            match read_module_row(bytes, at, row.as_slice()) {
                Ok(m) => {
                    let ghost before = modules@;
                    let ghost mv = m@;
                    modules.push(m);
                    proof {
                        assert(module_views(modules@) =~= module_views(before).push(mv));
                    }
                },
                Err(field) => {
                    proof {
                        assert(rows_from(
                            bytes@,
                            at as int,
                            count - k,
                            module_views(modules@),
                        ) == Err::<(Seq<ModuleEntryView>, int), DrCovError>(
                            DrCovError::BadModuleEntry { offset: at, field },
                        ));
                    }
                    return Err(DrCovError::BadModuleEntry { offset: at, field });
                },
            }
            at = after;
            k = k + 1;
        }
        Self::read_table(bytes, at, modules)
    }

    /// Reads the basic-block table whose announcement starts at `pos`.
    fn read_table(bytes: &[u8], pos: usize, modules: Vec<DrCovModuleEntry>) -> (r: Result<
        Self,
        DrCovError,
    >)
        requires
            pos <= bytes@.len(),
        ensures
            match r {
                Ok(reader) => table_from(bytes@, pos as int, module_views(modules@)) matches Ok(
                    content,
                ) && content == reader@,
                Err(e) => table_from(bytes@, pos as int, module_views(modules@)) matches Err(why)
                    && why == e,
            },
    {
        let (line, first) = read_line(bytes, pos);
        let count = match read_bb_count(line.as_slice()) {
            Some(n) => n,
            None => {
                return Err(DrCovError::BadBbTable { offset: pos });
            },
        };
        if count > (bytes.len() - first) / 8 {
            return Err(DrCovError::ShortBbTable { offset: first });
        }
        let mut blocks: Vec<DrCovBasicBlockEntry> = Vec::new();
        let mut k: usize = 0;
        while k < count
            invariant
                k <= count,
                first + 8 * count <= bytes@.len() <= usize::MAX,
                blocks@.len() == k,
                forall|n: int|
                    0 <= n < k ==> (#[trigger] blocks@[n]) == entry_at(bytes@, first + 8 * n),
            decreases count - k,
        {
            blocks.push(DrCovBasicBlockEntry::decode(bytes, first + 8 * k));
            k = k + 1;
        }
        let reader = DrCovReader { module_entries: modules, basic_block_entries: blocks };
        proof {
            assert(reader@.blocks =~= Seq::new(
                count as nat,
                |k: int| entry_at(bytes@, first + 8 * k),
            ));
        }
        Ok(reader)
    }
}

/// `rangemap::RangeMap`, as an opaque value.
#[verifier::external_type_specification]
#[verifier::external_body]
#[verifier::reject_recursive_types(K)]
#[verifier::reject_recursive_types(V)]
pub struct ExRangeMap<K, V>(rangemap::RangeMap<K, V>);

/// What a range map of modules holds: for each address that lies in one of
/// its ranges, the id and the path that the range maps to.
pub uninterp spec fn range_map_entries(map: rangemap::RangeMap<u64, (u16, String)>) -> Map<
    u64,
    (u16, Seq<char>),
>;

/// `entries` after the addresses from `start` up to, not including, `end`
/// have been mapped to `value`.
pub open spec fn with_range(
    entries: Map<u64, (u16, Seq<char>)>,
    start: u64,
    end: u64,
    value: (u16, Seq<char>),
) -> Map<u64, (u16, Seq<char>)> {
    Map::new(
        |k: u64| (start <= k < end) || entries.contains_key(k),
        |k: u64|
            if start <= k < end {
                value
            } else {
                entries[k]
            },
    )
}

/// The map of addresses to modules that maps no address.
pub open spec fn no_ranges() -> Map<u64, (u16, Seq<char>)> {
    Map::empty()
}

/// Calls `rangemap::RangeMap::new`: the new map holds nothing.
#[verifier::external_body]
fn range_map_new() -> (r: rangemap::RangeMap<u64, (u16, String)>)
    ensures
        range_map_entries(r) == no_ranges(),
{
    rangemap::RangeMap::new()
}

/// Calls `rangemap::RangeMap::insert` with the range `start..end`, which
/// must not be empty. Afterwards every address of the range maps to the
/// new value, whatever it mapped to before, and every other address maps to
/// what it did.
#[verifier::external_body]
fn range_map_insert(
    map: &mut rangemap::RangeMap<u64, (u16, String)>,
    start: u64,
    end: u64,
    id: u16,
    path: String,
)
    requires
        start < end,
    ensures
        range_map_entries(*final(map)) == with_range(
            range_map_entries(*old(map)),
            start,
            end,
            (id, path@),
        ),
{
    map.insert(start..end, (id, path));
}

/// The addresses that the first `n` of `modules` cover, each with the id
/// and path of the last of them that covers it.
pub open spec fn ranges_upto(modules: Seq<ModuleEntryView>, n: int) -> Map<u64, (u16, Seq<char>)>
    decreases n,
{
    if n <= 0 {
        no_ranges()
    } else {
        with_range(
            ranges_upto(modules, n - 1),
            modules[n - 1].base,
            modules[n - 1].end,
            (modules[n - 1].id, modules[n - 1].path),
        )
    }
}

/// The block that a record describes in module `m`.
pub open spec fn block_of(m: ModuleEntryView, e: DrCovBasicBlockEntry) -> DrCovBasicBlock {
    DrCovBasicBlock { start: (m.base + e.start) as u64, end: (m.base + e.start + e.size) as u64 }
}

impl TraceContent {
    /// Index of the first module with id `id`.
    pub open spec fn module_index(self, id: u16) -> Option<int> {
        first_index(self.modules, |m: ModuleEntryView| m.id == id, 0)
    }

    /// Index of the first module whose path ends with `name`, whole
    /// components only.
    pub open spec fn module_index_by_path(self, name: Seq<char>) -> Option<int> {
        first_index(self.modules, |m: ModuleEntryView| path_ends_with(m.path, name), 0)
    }

    /// The addresses of every block of a known module fit in 64 bits.
    pub open spec fn addresses_fit(self) -> bool {
        forall|k: int|
            0 <= k < self.blocks.len() ==> match self.module_index((#[trigger] self.blocks[k]).mod_id) {
                Some(i) => self.modules[i].base + self.blocks[k].start + self.blocks[k].size
                    <= u64::MAX,
                None => true,
            }
    }

    /// The blocks of the first `n` records, by their addresses; a record
    /// whose module is not in the module table gives none.
    pub open spec fn blocks_upto(self, n: int) -> Seq<DrCovBasicBlock>
        decreases n,
    {
        if n <= 0 {
            Seq::empty()
        } else {
            let e = self.blocks[n - 1];
            match self.module_index(e.mod_id) {
                Some(i) => self.blocks_upto(n - 1).push(block_of(self.modules[i], e)),
                None => self.blocks_upto(n - 1),
            }
        }
    }

    /// All blocks by their addresses, in the order of the records.
    pub open spec fn all_blocks(self) -> Seq<DrCovBasicBlock> {
        self.blocks_upto(self.blocks.len() as int)
    }

    /// The blocks, among those of the first `n` records, that lie in the
    /// module with id `id`, taken from the base of module `m`.
    pub open spec fn module_blocks_upto(self, m: ModuleEntryView, id: u16, n: int) -> Seq<
        DrCovBasicBlock,
    >
        decreases n,
    {
        if n <= 0 {
            Seq::empty()
        } else {
            let e = self.blocks[n - 1];
            if e.mod_id == id {
                self.module_blocks_upto(m, id, n - 1).push(block_of(m, e))
            } else {
                self.module_blocks_upto(m, id, n - 1)
            }
        }
    }

    /// The blocks of the module with id `id`, by their addresses, in the
    /// order of the records; none if no module has that id.
    pub open spec fn module_blocks(self, id: u16) -> Seq<DrCovBasicBlock> {
        match self.module_index(id) {
            Some(i) => self.module_blocks_upto(self.modules[i], id, self.blocks.len() as int),
            None => Seq::empty(),
        }
    }
}

/// Every block of a module starts at or after the base of the module and
/// ends at or after its start.
pub proof fn lemma_module_blocks_from_base(
    content: TraceContent,
    m: ModuleEntryView,
    id: u16,
    n: int,
    k: int,
)
    requires
        0 <= n <= content.blocks.len(),
        0 <= k < content.module_blocks_upto(m, id, n).len(),
        forall|j: int|
            0 <= j < content.blocks.len() && (#[trigger] content.blocks[j]).mod_id == id ==> m.base
                + content.blocks[j].start + content.blocks[j].size <= u64::MAX,
    ensures
        m.base <= content.module_blocks_upto(m, id, n)[k].start <= content.module_blocks_upto(
            m,
            id,
            n,
        )[k].end,
    decreases n,
{
    if n > 0 {
        let e = content.blocks[n - 1];
        let prev = content.module_blocks_upto(m, id, n - 1);
        if k < prev.len() {
            lemma_module_blocks_from_base(content, m, id, n - 1, k);
        }
    }
}

impl DrCovReader {
    /// Whether the addresses of every block of a known module fit in 64
    /// bits.
    pub fn addresses_in_range(&self) -> (r: bool)
        ensures
            r == self@.addresses_fit(),
    {
        let mut k: usize = 0;
        while k < self.basic_block_entries.len()
            invariant
                k <= self.basic_block_entries@.len(),
                forall|n: int|
                    0 <= n < k ==> match self@.module_index((#[trigger] self@.blocks[n]).mod_id) {
                        Some(i) => self@.modules[i].base + self@.blocks[n].start
                            + self@.blocks[n].size <= u64::MAX,
                        None => true,
                    },
            decreases self.basic_block_entries@.len() - k,
        {
            let e = self.basic_block_entries[k];
            match self.module_by_id(e.mod_id) {
                Some(m) => {
                    if m.base > u64::MAX - e.start as u64 || m.base + e.start as u64 > u64::MAX
                        - e.size as u64 {
                        proof {
                            assert(self@.blocks[k as int] == e);
                        }
                        return false;
                    }
                },
                None => {},
            }
            k = k + 1;
        }
        true
    }

    /// The blocks of the trace by their addresses, in the order of the
    /// records. Records of modules that the module table does not list are
    /// left out.
    #[must_use]
    pub fn basic_blocks(&self) -> (r: Vec<DrCovBasicBlock>)
        requires
            self@.addresses_fit(),
        ensures
            r@ == self@.all_blocks(),
    {
        let mut ret: Vec<DrCovBasicBlock> = Vec::new();
        let mut k: usize = 0;
        while k < self.basic_block_entries.len()
            invariant
                self@.addresses_fit(),
                k <= self.basic_block_entries@.len(),
                ret@ == self@.blocks_upto(k as int),
            decreases self.basic_block_entries@.len() - k,
        {
            let e = self.basic_block_entries[k];
            proof {
                assert(self@.blocks[k as int] == e);
            }
            match self.module_by_id(e.mod_id) {
                Some(m) => {
                    let start = m.base + e.start as u64;
                    let end = start + e.size as u64;
                    ret.push(DrCovBasicBlock::new(start, end));
                },
                None => {},
            }
            k = k + 1;
        }
        ret
    }

    /// The blocks of the module with id `id`, by their addresses, in the
    /// order of the records; none if the module table lists no such module.
    pub fn basic_blocks_for_module_id(&self, id: u16) -> (r: Vec<DrCovBasicBlock>)
        requires
            self@.addresses_fit(),
        ensures
            r@ == self@.module_blocks(id),
    {
        let mut ret: Vec<DrCovBasicBlock> = Vec::new();
        match self.module_by_id(id) {
            Some(m) => {
                let mut k: usize = 0;
                while k < self.basic_block_entries.len()
                    invariant
                        self@.addresses_fit(),
                        k <= self.basic_block_entries@.len(),
                        self@.module_index(id) matches Some(i) && self@.modules[i] == m@,
                        ret@ == self@.module_blocks_upto(m@, id, k as int),
                    decreases self.basic_block_entries@.len() - k,
                {
                    let e = self.basic_block_entries[k];
                    proof {
                        assert(self@.blocks[k as int] == e);
                    }
                    if e.mod_id == id {
                        let start = m.base + e.start as u64;
                        ret.push(DrCovBasicBlock::with_size(start, e.size));
                    }
                    k = k + 1;
                }
            },
            None => {},
        }
        ret
    }

    /// The map from addresses to modules: every address from the base of a
    /// module up to, not including, its end maps to the id and path of the
    /// module; where modules overlap, the later row of the table wins.
    #[must_use]
    pub fn module_map(&self) -> (r: rangemap::RangeMap<u64, (u16, String)>)
        requires
            forall|i: int|
                0 <= i < self@.modules.len() ==> (#[trigger] self@.modules[i]).base
                    < self@.modules[i].end,
        ensures
            range_map_entries(r) == ranges_upto(self@.modules, self@.modules.len() as int),
    {
        let mut ret = range_map_new();
        let mut i: usize = 0;
        while i < self.module_entries.len()
            invariant
                i <= self.module_entries@.len(),
                forall|n: int|
                    0 <= n < self@.modules.len() ==> (#[trigger] self@.modules[n]).base
                        < self@.modules[n].end,
                range_map_entries(ret) == ranges_upto(self@.modules, i as int),
            decreases self.module_entries@.len() - i,
        {
            let m = &self.module_entries[i];
            proof {
                assert(self@.modules[i as int] == m@);
            }
            range_map_insert(&mut ret, m.base, m.end, m.id, m.path.clone());
            i = i + 1;
        }
        ret
    }

    /// The start addresses of all blocks.
    #[must_use]
    pub fn basic_block_addresses_u64(&self) -> (r: Vec<u64>)
        requires
            self@.addresses_fit(),
        ensures
            r@ == self@.all_blocks().map_values(|b: DrCovBasicBlock| b.start),
    {
        let blocks = self.basic_blocks();
        let mut ret: Vec<u64> = Vec::new();
        let mut k: usize = 0;
        while k < blocks.len()
            invariant
                k <= blocks@.len(),
                ret@ == blocks@.take(k as int).map_values(|b: DrCovBasicBlock| b.start),
            decreases blocks@.len() - k,
        {
            ret.push(blocks[k].start);
            proof {
                assert(blocks@.take(k + 1) == blocks@.take(k as int).push(blocks@[k as int]));
                assert(ret@ =~= blocks@.take(k + 1).map_values(|b: DrCovBasicBlock| b.start));
            }
            k = k + 1;
        }
        proof {
            assert(blocks@.take(k as int) == blocks@);
        }
        ret
    }

    /// The start addresses of all blocks as 32-bit numbers; an error if one
    /// of them does not fit.
    pub fn basic_block_addresses_u32(&self) -> (r: Result<Vec<u32>, String>)
        requires
            self@.addresses_fit(),
        ensures
            match r {
                Ok(v) => v@.len() == self@.all_blocks().len() && forall|k: int|
                    0 <= k < v@.len() ==> (#[trigger] v@[k]) == self@.all_blocks()[k].start,
                Err(e) => e@ == "address does not fit in 32 bits"@ && exists|k: int|
                    0 <= k < self@.all_blocks().len() && (#[trigger] self@.all_blocks()[k]).start
                        > u32::MAX,
            },
    {
        let blocks = self.basic_blocks();
        let mut ret: Vec<u32> = Vec::new();
        let mut k: usize = 0;
        while k < blocks.len()
            invariant
                k <= blocks@.len(),
                blocks@ == self@.all_blocks(),
                ret@.len() == k,
                forall|n: int| 0 <= n < k ==> (#[trigger] ret@[n]) == blocks@[n].start,
            decreases blocks@.len() - k,
        {
            if blocks[k].start > 0xffff_ffff {
                proof {
                    assert(self@.all_blocks()[k as int].start > u32::MAX);
                }
                return Err("address does not fit in 32 bits".to_owned());
            }
            ret.push(blocks[k].start as u32);
            k = k + 1;
        }
        Ok(ret)
    }

    /// The first module with id `id`.
    #[must_use]
    pub fn module_by_id(&self, id: u16) -> (r: Option<&DrCovModuleEntry>)
        ensures
            match r {
                Some(m) => self@.module_index(id) matches Some(i) && *m == self.module_entries@[i]
                    && m@ == self@.modules[i],
                None => self@.module_index(id) is None,
            },
    {
        let ghost p = |m: ModuleEntryView| m.id == id;
        let mut i: usize = 0;
        while i < self.module_entries.len()
            invariant
                i <= self.module_entries@.len(),
                p == (|m: ModuleEntryView| m.id == id),
                first_index(self@.modules, p, 0) == first_index(self@.modules, p, i as int),
            decreases self.module_entries@.len() - i,
        {
            proof {
                assert(self@.modules[i as int] == self.module_entries@[i as int]@);
            }
            if self.module_entries[i].id == id {
                return Some(&self.module_entries[i]);
            }
            i = i + 1;
        }
        None
    }

    /// The first module whose path ends with `module_filename`, whole
    /// components only.
    #[must_use]
    pub fn get_module_entry(&self, module_filename: &str) -> (r: Option<&DrCovModuleEntry>)
        ensures
            match r {
                Some(m) => self@.module_index_by_path(module_filename@) matches Some(i) && *m
                    == self.module_entries@[i] && m@ == self@.modules[i],
                None => self@.module_index_by_path(module_filename@) is None,
            },
    {
        let ghost p = |m: ModuleEntryView| path_ends_with(m.path, module_filename@);
        let mut i: usize = 0;
        while i < self.module_entries.len()
            invariant
                i <= self.module_entries@.len(),
                p == (|m: ModuleEntryView| path_ends_with(m.path, module_filename@)),
                first_index(self@.modules, p, 0) == first_index(self@.modules, p, i as int),
            decreases self.module_entries@.len() - i,
        {
            proof {
                assert(self@.modules[i as int] == self.module_entries@[i as int]@);
            }
            if ends_with_path(self.module_entries[i].path.as_str(), module_filename) {
                return Some(&self.module_entries[i]);
            }
            i = i + 1;
        }
        None
    }
}

} // verus!
