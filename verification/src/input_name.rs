//! What the name of an input file says of the input.
//!
//! The stem of the name is a list of segments separated by `::`. A segment
//! is a key, a colon and a value. The keys `id`, `time`, `executed_on`,
//! `execs`, `edges_found` and `src` are read; other segments are passed
//! over. A stem that holds `orig` anywhere names an initial seed.

use crate::text::contains;
use crate::text::find;
use crate::text::parse_i64;
use crate::text::parse_signed;
use crate::text::parse_u32;
use crate::text::parse_unsigned;
use crate::text::pieces;
use crate::text::same_chars;
use crate::text::slice_of;
use crate::text::split;
use crate::text::split_ranges;
use crate::text::to_chars;
use crate::text::trim;
use crate::text::trim_range;
use vstd::prelude::*;

verus! {

/// Why the name of an input file cannot be read.
#[derive(Clone, Copy, Debug, PartialEq, Eq, Structural)]
pub enum NameError {
    /// The segment at `index` has a known key and a value that cannot be
    /// read.
    BadSegment { index: usize },
    /// No segment gives the id of the input.
    MissingId,
    /// No segment says when the input was executed.
    MissingExecutedOn,
}

/// What has been read of a stem so far.
pub struct StemFields {
    pub id: Option<u32>,
    pub time: i64,
    pub executed_on: Option<i64>,
    pub execs: u32,
    pub edges: u32,
    pub parents: Seq<u32>,
}

/// Mathematical content of a [`StemInfo`].
pub struct StemView {
    pub fuzz_input_id: u32,
    pub execution_time: i64,
    pub executed_on: i64,
    pub total_mutations: u32,
    pub fuzzer_coverage: u32,
    pub parents: Seq<u32>,
}

/// What the stem of an input file says of the input.
#[derive(Debug)]
pub struct StemInfo {
    /// Id that the fuzzer gave the input (`id`)
    pub fuzz_input_id: u32,
    /// Execution time in milliseconds (`time`), 0 if not given
    pub execution_time: i64,
    /// When the input was executed, in milliseconds since the epoch
    /// (`executed_on`)
    pub executed_on: i64,
    /// Mutations performed (`execs`), 0 if not given
    pub total_mutations: u32,
    /// Coverage that the fuzzer reported (`edges_found`), 0 if not given
    pub fuzzer_coverage: u32,
    /// Ids of the inputs this one was derived from (`src`)
    pub parents: Vec<u32>,
}

impl View for StemInfo {
    type V = StemView;

    open spec fn view(&self) -> StemView {
        StemView {
            fuzz_input_id: self.fuzz_input_id,
            execution_time: self.execution_time,
            executed_on: self.executed_on,
            total_mutations: self.total_mutations,
            fuzzer_coverage: self.fuzzer_coverage,
            parents: self.parents@,
        }
    }
}

/// The key of a segment: what stands before its first colon.
pub open spec fn segment_key(seg: Seq<char>) -> Seq<char> {
    split(seg, seq![':'])[0]
}

/// The value of a segment: what stands between its first colon and its
/// second, or its end; empty if it has no colon.
pub open spec fn segment_value(seg: Seq<char>) -> Seq<char> {
    let parts = split(seg, seq![':']);
    if parts.len() >= 2 {
        parts[1]
    } else {
        Seq::empty()
    }
}

/// Reads the ids in `pieces` from index `k` on and adds them to `acc`. A
/// piece that is no number, white space at its ends aside, is passed over.
pub open spec fn parents_from(pieces: Seq<Seq<char>>, k: int, acc: Seq<u32>) -> Seq<u32>
    decreases pieces.len() - k,
{
    if k < 0 || k >= pieces.len() {
        acc
    } else {
        parents_from(
            pieces,
            k + 1,
            match parse_unsigned(trim(pieces[k]), 10, u32::MAX as int) {
                Some(v) => acc.push(v as u32),
                None => acc,
            },
        )
    }
}

/// The parent ids that the value of a `src` segment lists, separated by
/// `+`.
pub open spec fn parents_of(value: Seq<char>) -> Seq<u32> {
    parents_from(split(value, seq!['+']), 0, Seq::empty())
}

/// What is known after the segment `seg` has been read; `None` if the
/// segment has a known key and a value that cannot be read.
pub open spec fn apply_segment(f: StemFields, seg: Seq<char>) -> Option<StemFields> {
    let key = segment_key(seg);
    let value = segment_value(seg);
    if key == "id"@ {
        match parse_unsigned(value, 10, u32::MAX as int) {
            Some(v) => Some(StemFields { id: Some(v as u32), ..f }),
            None => None,
        }
    } else if key == "time"@ {
        match parse_signed(value, i64::MIN as int, i64::MAX as int) {
            Some(v) => Some(StemFields { time: v as i64, ..f }),
            None => None,
        }
    } else if key == "executed_on"@ {
        match parse_signed(value, i64::MIN as int, i64::MAX as int) {
            Some(v) => Some(StemFields { executed_on: Some(v as i64), ..f }),
            None => None,
        }
    } else if key == "execs"@ {
        match parse_unsigned(value, 10, u32::MAX as int) {
            Some(v) => Some(StemFields { execs: v as u32, ..f }),
            None => None,
        }
    } else if key == "edges_found"@ {
        match parse_unsigned(value, 10, u32::MAX as int) {
            Some(v) => Some(StemFields { edges: v as u32, ..f }),
            None => None,
        }
    } else if key == "src"@ {
        Some(StemFields { parents: parents_of(value), ..f })
    } else {
        Some(f)
    }
}

/// Reads the segments from index `k` on; gives the index of the first that
/// cannot be read, if there is one.
pub open spec fn fold_segments(segs: Seq<Seq<char>>, k: int, f: StemFields) -> Result<
    StemFields,
    int,
>
    decreases segs.len() - k,
{
    if k < 0 || k >= segs.len() {
        Ok(f)
    } else {
        match apply_segment(f, segs[k]) {
            Some(next) => fold_segments(segs, k + 1, next),
            None => Err(k),
        }
    }
}

/// Nothing read yet.
pub open spec fn no_fields() -> StemFields {
    StemFields {
        id: None,
        time: 0,
        executed_on: None,
        execs: 0,
        edges: 0,
        parents: Seq::empty(),
    }
}

/// What a stem says of its input. Later segments override earlier ones
/// with the same key. The id and the time of execution must be given.
pub open spec fn stem_fields(stem: Seq<char>) -> Result<StemView, NameError> {
    match fold_segments(split(stem, seq![':', ':']), 0, no_fields()) {
        Err(k) => Err(NameError::BadSegment { index: k as usize }),
        Ok(f) => match f.id {
            None => Err(NameError::MissingId),
            Some(id) => match f.executed_on {
                None => Err(NameError::MissingExecutedOn),
                Some(at) => Ok(
                    StemView {
                        fuzz_input_id: id,
                        execution_time: f.time,
                        executed_on: at,
                        total_mutations: f.execs,
                        fuzzer_coverage: f.edges,
                        parents: f.parents,
                    },
                ),
            },
        },
    }
}

/// A stem that holds `orig` names an initial seed.
pub open spec fn names_seed(stem: Seq<char>) -> bool {
    contains(stem, "orig"@)
}

/// `stem` with every `::` replaced by a comma, from index `from` on: the
/// name under which the input itself is stored.
pub open spec fn raw_name_from(stem: Seq<char>, from: int) -> Seq<char>
    decreases stem.len() - from,
{
    if from < 0 || from >= stem.len() {
        Seq::empty()
    } else if from + 1 < stem.len() && stem[from] == ':' && stem[from + 1] == ':' {
        seq![','] + raw_name_from(stem, from + 2)
    } else {
        seq![stem[from]] + raw_name_from(stem, from + 1)
    }
}

/// The name under which the input with the stem `stem` is stored: the stem
/// with every `::` replaced by a comma.
pub open spec fn raw_name(stem: Seq<char>) -> Seq<char> {
    raw_name_from(stem, 0)
}

/// The parent ids that the value of a `src` segment lists.
fn read_parents(value: &[char]) -> (r: Vec<u32>)
    ensures
        r@ == parents_of(value@),
{
    let plus: Vec<char> = vec!['+'];
    assert(plus@ == seq!['+']);
    let ranges = split_ranges(value, plus.as_slice());
    let ghost parts = split(value@, plus@);
    let mut r: Vec<u32> = Vec::new();
    let mut k: usize = 0;
    while k < ranges.len()
        invariant
            k <= ranges@.len(),
            crate::text::ranges_within(ranges@, value@.len()),
            pieces(value@, ranges@) == parts,
            parents_from(parts, 0, Seq::empty()) == parents_from(parts, k as int, r@),
        decreases ranges@.len() - k,
    {
        let range = ranges[k];
        let piece = slice_of(value, range.0, range.1);
        proof {
            assert(pieces(value@, ranges@)[k as int] == piece@);
        }
        let (a, b) = trim_range(piece);
        match parse_u32(slice_of(piece, a, b)) {
            Some(v) => {
                r.push(v);
            },
            None => {},
        }
        k = k + 1;
    }
    r
}

/// What is known of a stem while it is read.
struct Fields {
    id: Option<u32>,
    time: i64,
    executed_on: Option<i64>,
    execs: u32,
    edges: u32,
    parents: Vec<u32>,
}

impl View for Fields {
    type V = StemFields;

    closed spec fn view(&self) -> StemFields {
        StemFields {
            id: self.id,
            time: self.time,
            executed_on: self.executed_on,
            execs: self.execs,
            edges: self.edges,
            parents: self.parents@,
        }
    }
}

/// Reads one segment into `f`; `false` if the segment has a known key and a
/// value that cannot be read.
fn read_segment(f: &mut Fields, seg: &[char]) -> (ok: bool)
    ensures
        match apply_segment(old(f)@, seg@) {
            Some(next) => ok && final(f)@ == next,
            None => !ok,
        },
{
    let colon: Vec<char> = vec![':'];
    assert(colon@ == seq![':']);
    let parts = split_ranges(seg, colon.as_slice());
    proof {
        assert(pieces(seg@, parts@)[0] == seg@.subrange(parts@[0].0 as int, parts@[0].1 as int));
        if parts@.len() >= 2 {
            assert(pieces(seg@, parts@)[1] == seg@.subrange(
                parts@[1].0 as int,
                parts@[1].1 as int,
            ));
        }
    }
    let key = slice_of(seg, parts[0].0, parts[0].1);
    let value = if parts.len() >= 2 {
        slice_of(seg, parts[1].0, parts[1].1)
    } else {
        slice_of(seg, 0, 0)
    };
    proof {
        assert(key@ == segment_key(seg@));
        assert(value@ =~= segment_value(seg@));
    }
    if same_chars(key, to_chars("id").as_slice()) {
        match parse_u32(value) {
            Some(v) => {
                f.id = Some(v);
                true
            },
            None => false,
        }
    } else if same_chars(key, to_chars("time").as_slice()) {
        match parse_i64(value) {
            Some(v) => {
                f.time = v;
                true
            },
            None => false,
        }
    } else if same_chars(key, to_chars("executed_on").as_slice()) {
        match parse_i64(value) {
            Some(v) => {
                f.executed_on = Some(v);
                true
            },
            None => false,
        }
    } else if same_chars(key, to_chars("execs").as_slice()) {
        match parse_u32(value) {
            Some(v) => {
                f.execs = v;
                true
            },
            None => false,
        }
    } else if same_chars(key, to_chars("edges_found").as_slice()) {
        match parse_u32(value) {
            Some(v) => {
                f.edges = v;
                true
            },
            None => false,
        }
    } else if same_chars(key, to_chars("src").as_slice()) {
        f.parents = read_parents(value);
        true
    } else {
        true
    }
}

/// Reads what a stem says of its input.
pub fn parse_stem(stem: &[char]) -> (r: Result<StemInfo, NameError>)
    ensures
        match r {
            Ok(info) => stem_fields(stem@) matches Ok(fields) && fields == info@,
            Err(e) => stem_fields(stem@) matches Err(why) && why == e,
        },
{
    let sep: Vec<char> = vec![':', ':'];
    assert(sep@ == seq![':', ':']);
    let ranges = split_ranges(stem, sep.as_slice());
    let ghost segs = split(stem@, sep@);
    let mut f = Fields {
        id: None,
        time: 0,
        executed_on: None,
        execs: 0,
        edges: 0,
        parents: Vec::new(),
    };
    let mut k: usize = 0;
    while k < ranges.len()
        invariant
            k <= ranges@.len(),
            crate::text::ranges_within(ranges@, stem@.len()),
            pieces(stem@, ranges@) == segs,
            segs == split(stem@, seq![':', ':']),
            fold_segments(segs, 0, no_fields()) == fold_segments(segs, k as int, f@),
        decreases ranges@.len() - k,
    {
        let range = ranges[k];
        let seg = slice_of(stem, range.0, range.1);
        proof {
            assert(pieces(stem@, ranges@)[k as int] == seg@);
        }
        if !read_segment(&mut f, seg) {
            return Err(NameError::BadSegment { index: k });
        }
        k = k + 1;
    }
    let id = match f.id {
        Some(id) => id,
        None => {
            return Err(NameError::MissingId);
        },
    };
    let executed_on = match f.executed_on {
        Some(at) => at,
        None => {
            return Err(NameError::MissingExecutedOn);
        },
    };
    Ok(
        StemInfo {
            fuzz_input_id: id,
            execution_time: f.time,
            executed_on,
            total_mutations: f.execs,
            fuzzer_coverage: f.edges,
            parents: f.parents,
        },
    )
}

/// Whether a stem names an initial seed.
pub fn is_seed_name(stem: &[char]) -> (r: bool)
    ensures
        r == names_seed(stem@),
{
    let orig = to_chars("orig");
    find(stem, orig.as_slice(), 0).is_some()
}

/// The name under which the input with the stem `stem` is stored.
pub fn raw_input_name(stem: &[char]) -> (r: Vec<char>)
    ensures
        r@ == raw_name(stem@),
{
    let mut r: Vec<char> = Vec::new();
    let mut i: usize = 0;
    while i < stem.len()
        invariant
            i <= stem@.len(),
            raw_name(stem@) == r@ + raw_name_from(stem@, i as int),
        decreases stem@.len() - i,
    {
        let ghost before = r@;
        if i + 1 < stem.len() && stem[i] == ':' && stem[i + 1] == ':' {
            r.push(',');
            proof {
                assert(r@ + raw_name_from(stem@, i + 2) =~= before + (seq![','] + raw_name_from(
                    stem@,
                    i + 2,
                )));
            }
            i = i + 2;
        } else {
            r.push(stem[i]);
            proof {
                assert(r@ + raw_name_from(stem@, i + 1) =~= before + (seq![stem@[i as int]]
                    + raw_name_from(stem@, i + 1)));
            }
            i = i + 1;
        }
    }
    proof {
        assert(r@ + raw_name_from(stem@, i as int) =~= r@);
    }
    r
}

} // verus!
