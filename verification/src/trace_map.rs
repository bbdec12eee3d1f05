//! Mapping a trace to source lines.
//!
//! A trace names basic blocks of the target by address. Once the two ends
//! of each block have been resolved to a file and a line, the blocks are
//! turned into blocks of source lines, and the lines they span are
//! collected.

use crate::config::TargetConfig;
use crate::custom_types::FileId;
use crate::custom_types::FileMeta;
use crate::custom_types::LineId;
use crate::custom_types::LineMetaView;
use crate::drcov::parse_trace;
use crate::drcov::DrCovBasicBlock;
use crate::drcov::DrCovError;
use crate::drcov::DrCovReader;
use crate::drcov::TraceContent;
use crate::drcov::lemma_module_blocks_from_base;
use crate::paths::parent_of;
use crate::paths::path_parent;
use crate::paths::path_starts_with;
use crate::paths::starts_with_path;
use crate::search::first_index;
use crate::search::lemma_first_index;
use crate::sut_database::has_name;
use crate::sut_database::is_comment_line;
use crate::sut_database::views_of;
use crate::sut_database::SUT;
use crate::text::lines;
use crate::trace_loader::SourceLocation;
use crate::trace_loader::TraceLoader;
use vstd::prelude::*;

verus! {

/// A block of source lines: the lines that the two ends of a basic block
/// resolve to.
#[derive(Eq, PartialEq, Hash, Clone, Copy, Debug, Structural)]
pub struct SrcCovBasicBlock {
    pub start: LineId,
    pub end: LineId,
}

/// What one trace covers: its basic blocks by address, the blocks of source
/// lines they resolve to, index by index, and the lines those span.
#[derive(Eq, PartialEq, Clone, Debug)]
pub struct Trace {
    pub binary: Vec<DrCovBasicBlock>,
    pub source: Vec<SrcCovBasicBlock>,
    /// Every line of every block of `source`, each once.
    pub unique_lines_set: Vec<LineId>,
}

/// Mathematical content of a [`Trace`].
pub struct TraceModel {
    pub binary: Seq<DrCovBasicBlock>,
    pub source: Seq<SrcCovBasicBlock>,
    pub lines: Seq<LineId>,
}

impl View for Trace {
    type V = TraceModel;

    open spec fn view(&self) -> TraceModel {
        TraceModel {
            binary: self.binary@,
            source: self.source@,
            lines: self.unique_lines_set@,
        }
    }
}

/// The lines of the file of `b.start` from the line of `b.start` to the
/// line of `b.end`, both included.
pub open spec fn interval(b: SrcCovBasicBlock) -> Set<LineId> {
    Set::new(|l: LineId| l.0 == b.start.0 && b.start.1 <= l.1 <= b.end.1)
}

/// A block of source lines is proper if its two ends lie in one file and
/// it starts on a line before the line it ends on.
pub open spec fn proper(b: SrcCovBasicBlock) -> bool {
    b.start.0 == b.end.0 && b.start.1 < b.end.1
}

/// The lines that the blocks of `source` span.
pub open spec fn covered(source: Seq<SrcCovBasicBlock>) -> Set<LineId> {
    Set::new(
        |l: LineId| exists|i: int| 0 <= i < source.len() && interval(#[trigger] source[i]).contains(l),
    )
}

impl TraceModel {
    /// The trace without any block.
    pub open spec fn empty() -> TraceModel {
        TraceModel { binary: Seq::empty(), source: Seq::empty(), lines: Seq::empty() }
    }

    /// A trace is in order if it has a block of source lines for each basic
    /// block, holds no block of source lines twice, every block lies in one
    /// file and starts on a line before the line it ends on, and the trace
    /// lists exactly the lines that its blocks span, each once.
    pub open spec fn wf(self) -> bool {
        &&& self.binary.len() == self.source.len()
        &&& self.source.no_duplicates()
        &&& forall|i: int| 0 <= i < self.source.len() ==> proper(#[trigger] self.source[i])
        &&& self.lines.no_duplicates()
        &&& self.lines.to_set() == covered(self.source)
    }
}

/// A trace that is in order has as many blocks of source lines as basic
/// blocks, and every block of source lines lies in one file and starts on a
/// line before the line it ends on.
pub proof fn lemma_trace_blocks_ordered(t: TraceModel, i: int)
    requires
        t.wf(),
        0 <= i < t.source.len(),
    ensures
        t.binary.len() == t.source.len(),
        t.source[i].start.0 == t.source[i].end.0,
        t.source[i].start.1 < t.source[i].end.1,
{
}

/// In a trace that is in order, a line is listed exactly if it lies in the
/// file of some block of source lines, from the line the block starts on to
/// the line it ends on.
pub proof fn lemma_trace_lines(t: TraceModel, l: LineId)
    requires
        t.wf(),
    ensures
        t.lines.contains(l) <==> exists|i: int|
            0 <= i < t.source.len() && l.0 == (#[trigger] t.source[i]).start.0
                && t.source[i].start.1 <= l.1 <= t.source[i].end.1,
{
    assert(t.lines.contains(l) == t.lines.to_set().contains(l));
    if covered(t.source).contains(l) {
        let i = choose|i: int| 0 <= i < t.source.len() && interval(#[trigger] t.source[i]).contains(l);
        assert(l.0 == t.source[i].start.0);
    }
    if exists|i: int|
        0 <= i < t.source.len() && l.0 == (#[trigger] t.source[i]).start.0 && t.source[i].start.1
            <= l.1 <= t.source[i].end.1 {
        let i = choose|i: int|
            0 <= i < t.source.len() && l.0 == (#[trigger] t.source[i]).start.0
                && t.source[i].start.1 <= l.1 <= t.source[i].end.1;
        assert(interval(t.source[i]).contains(l));
    }
}

/// `lines` with `l` at its end, unless it holds `l` already.
pub open spec fn push_new(lines: Seq<LineId>, l: LineId) -> Seq<LineId> {
    if lines.contains(l) {
        lines
    } else {
        lines.push(l)
    }
}

/// `lines` followed by the lines `from ..= to` of `file` that it does not
/// hold yet.
pub open spec fn add_lines(lines: Seq<LineId>, file: FileId, from: int, to: int) -> Seq<LineId>
    decreases to - from + 1,
{
    if from > to {
        lines
    } else {
        add_lines(push_new(lines, LineId(file, from as u32)), file, from + 1, to)
    }
}

/// Adding lines keeps a list free of repetitions and adds exactly the
/// lines asked for.
pub proof fn lemma_add_lines(lines: Seq<LineId>, file: FileId, from: int, to: int)
    requires
        lines.no_duplicates(),
        0 <= from,
        to <= u32::MAX,
    ensures
        add_lines(lines, file, from, to).no_duplicates(),
        add_lines(lines, file, from, to).to_set() == lines.to_set().union(
            Set::new(|l: LineId| l.0 == file && from <= l.1 <= to),
        ),
    decreases to - from + 1,
{
    let target = lines.to_set().union(Set::new(|l: LineId| l.0 == file && from <= l.1 <= to));
    if from > to {
        assert(lines.to_set() =~= target);
    } else {
        let l = LineId(file, from as u32);
        let next = push_new(lines, l);
        assert(next.no_duplicates()) by {
            if !lines.contains(l) {
                assert forall|a: int, b: int|
                    0 <= a < next.len() && 0 <= b < next.len() && a != b implies next[a]
                    != next[b] by {
                    if a < lines.len() && b < lines.len() {
                    } else if a < lines.len() {
                        assert(lines.contains(lines[a]));
                    } else {
                        assert(lines.contains(lines[b]));
                    }
                }
            }
        }
        lemma_add_lines(next, file, from + 1, to);
        assert forall|x: LineId| next.to_set().contains(x) <==> (lines.to_set().contains(x) || x
            == l) by {
            if lines.contains(l) {
            } else {
                if next.contains(x) {
                    let i = choose|i: int| 0 <= i < next.len() && next[i] == x;
                    if i < lines.len() {
                        assert(lines.contains(lines[i]));
                    }
                }
                if lines.contains(x) {
                    let i = choose|i: int| 0 <= i < lines.len() && lines[i] == x;
                    assert(next[i] == x);
                }
                assert(next[lines.len() as int] == l);
            }
        }
        assert(add_lines(lines, file, from, to).to_set() =~= target);
    }
}

/// A source file that addresses of the target resolve to, with what the
/// file system says of it.
#[derive(Clone, Debug)]
pub struct SourceFile {
    /// Path of the file, in canonical form.
    pub path: String,
    /// Whether the path names a directory.
    pub is_dir: bool,
    /// The text of the file; `None` if it cannot be read.
    pub content: Option<String>,
}

/// What has been decided of a source file: whether its path is admissible
/// to the index, and whether it passes the ancestor test.
#[derive(Clone, Copy, Debug, PartialEq, Eq, Structural)]
pub struct Verdict {
    pub admissible: bool,
    pub passes: bool,
}

/// A source location that an address of the target resolves to: a file, by
/// its index in the list of source files, and a line number counted from
/// 1.
#[derive(Clone, Copy, Debug, PartialEq, Eq, Structural)]
pub struct ResolvedAddress {
    pub file: usize,
    pub line: u32,
}

/// The source locations of the two ends of a basic block, as the debug
/// information names them.
#[derive(Clone, Debug)]
pub struct LocatedBlock {
    pub start: Option<SourceLocation>,
    pub end: Option<SourceLocation>,
}

/// The lines that the two ends name, where they name one, are counted from
/// 1.
pub open spec fn counted_from_one(b: LocatedBlock) -> bool {
    &&& b.start matches Some(l) ==> l.line >= 1
    &&& b.end matches Some(l) ==> l.line >= 1
}

/// The two ends of a basic block, each resolved or not.
#[derive(Clone, Copy, Debug, PartialEq, Eq, Structural)]
pub struct ResolvedBlock {
    pub start: Option<ResolvedAddress>,
    pub end: Option<ResolvedAddress>,
}

/// Why a trace could not be prepared for mapping.
#[derive(Clone, Copy, Debug, PartialEq, Eq, Structural)]
pub enum TraceError {
    /// The trace is not a well-formed DrCov trace.
    Format(DrCovError),
    /// The module table of the trace does not list the target.
    ModuleNotFound,
    /// A block of the trace has an address beyond 64 bits.
    AddressOverflow,
}

/// A directory lies under an include filter if the parent of the filter is
/// a prefix of it.
pub open spec fn under_filter(dir: Seq<char>, filter: Seq<char>) -> bool {
    match path_parent(filter) {
        Some(root) => path_starts_with(dir, root),
        None => false,
    }
}

/// A file passes the ancestor test if its parent directory lies under the
/// source directory of the target or under some include filter.
pub open spec fn ancestors_ok(path: Seq<char>, config: &TargetConfig) -> bool {
    match path_parent(path) {
        None => false,
        Some(dir) => path_starts_with(dir, config.target_source_code_path@) || exists|k: int|
            0 <= k < config.target_include_filter@.len() && under_filter(
                dir,
                (#[trigger] config.target_include_filter@[k])@,
            ),
    }
}

/// Whether the file at `filepath` passes the ancestor test.
pub fn check_ancestors(filepath: &str, target_config: &TargetConfig) -> (r: bool)
    ensures
        r == ancestors_ok(filepath@, target_config),
{
    let dir = match parent_of(filepath) {
        Some(dir) => dir,
        None => {
            return false;
        },
    };
    if starts_with_path(dir.as_str(), target_config.target_source_code_path.as_str()) {
        return true;
    }
    let mut k: usize = 0;
    while k < target_config.target_include_filter.len()
        invariant
            k <= target_config.target_include_filter@.len(),
            path_parent(filepath@) == Some(dir@),
            !path_starts_with(dir@, target_config.target_source_code_path@),
            forall|n: int|
                0 <= n < k ==> !under_filter(
                    dir@,
                    (#[trigger] target_config.target_include_filter@[n])@,
                ),
        decreases target_config.target_include_filter@.len() - k,
    {
        match parent_of(target_config.target_include_filter[k].as_str()) {
            Some(root) => {
                if starts_with_path(dir.as_str(), root.as_str()) {
                    proof {
                        assert(under_filter(dir@, target_config.target_include_filter@[k as int]@));
                    }
                    return true;
                }
            },
            None => {},
        }
        k = k + 1;
    }
    false
}

/// The names of the files of an index and, for those added since some
/// starting point, their lines.
pub struct FilesModel {
    pub names: Seq<Seq<char>>,
    pub texts: Seq<Seq<Seq<char>>>,
}

/// The property of a name to be `name`.
pub open spec fn is_name(name: Seq<char>) -> spec_fn(Seq<char>) -> bool {
    |n: Seq<char>| n == name
}

/// The names of a list of files.
pub open spec fn names_of(files: Seq<FileMeta>) -> Seq<Seq<char>> {
    Seq::new(files.len(), |f: int| files[f].name@)
}

/// What the mapping reads of a source file: its path, what has been
/// decided of it, and the lines of its text.
pub struct FileView {
    pub path: Seq<char>,
    pub admissible: bool,
    pub passes: bool,
    pub text: Seq<Seq<char>>,
}

/// The lines of the text of a source file; none if it cannot be read.
pub open spec fn text_of(f: SourceFile) -> Seq<Seq<char>> {
    match f.content {
        Some(text) => lines(text@),
        None => Seq::empty(),
    }
}

/// What the mapping reads of the source files, given what has been
/// decided of each.
pub open spec fn file_views(files: Seq<SourceFile>, verdicts: Seq<Verdict>) -> Seq<FileView> {
    Seq::new(
        files.len(),
        |i: int|
            FileView {
                path: files[i].path@,
                admissible: verdicts[i].admissible,
                passes: verdicts[i].passes,
                text: text_of(files[i]),
            },
    )
}

/// What the index `sut` and the configuration decide of each source file.
pub open spec fn verdicts_of(sut: SUT, config: &TargetConfig, files: Seq<SourceFile>) -> Seq<
    Verdict,
> {
    Seq::new(
        files.len(),
        |i: int|
            Verdict {
                admissible: sut.admits_path(files[i].path@, files[i].is_dir),
                passes: ancestors_ok(files[i].path@, config),
            },
    )
}

/// Registers the file of `a` and gives the line that `a` names: the line of
/// a file that is registered already, or of the file newly registered if its
/// path is admissible, a file id is left and its text has no more lines than
/// can be numbered; nothing otherwise, and nothing for an address whose file
/// is not in the list.
pub open spec fn register(files: FilesModel, sources: Seq<FileView>, a: ResolvedAddress) -> (
    FilesModel,
    Option<LineId>,
) {
    if a.file >= sources.len() {
        (files, None)
    } else {
        let f = sources[a.file as int];
        match first_index(files.names, is_name(f.path), 0) {
            Some(i) => (files, Some(LineId(FileId((i + 1) as usize), a.line))),
            None => if f.admissible && files.names.len() < usize::MAX && f.text.len()
                <= u32::MAX {
                (
                    FilesModel { names: files.names.push(f.path), texts: files.texts.push(f.text) },
                    Some(LineId(FileId((files.names.len() + 1) as usize), a.line)),
                )
            } else {
                (files, None)
            },
        }
    }
}

/// [`register`] for an address that may not have been resolved.
pub open spec fn register_opt(
    files: FilesModel,
    sources: Seq<FileView>,
    a: Option<ResolvedAddress>,
) -> (FilesModel, Option<LineId>) {
    match a {
        Some(a) => register(files, sources, a),
        None => (files, None),
    }
}

/// The address was resolved to a file that passes the ancestor test.
pub open spec fn passes(sources: Seq<FileView>, a: Option<ResolvedAddress>) -> bool {
    match a {
        Some(a) => a.file < sources.len() && sources[a.file as int].passes,
        None => false,
    }
}

/// The trace `t` with one more block.
pub open spec fn with_block(t: TraceModel, bb: DrCovBasicBlock, s: LineId, e: LineId)
    -> TraceModel {
    TraceModel {
        binary: t.binary.push(bb),
        source: t.source.push(SrcCovBasicBlock { start: s, end: e }),
        lines: add_lines(t.lines, s.0, s.1 as int, e.1 as int),
    }
}

/// State of a mapping: the files registered and the trace built so far.
pub struct MapState {
    pub files: FilesModel,
    pub trace: TraceModel,
}

/// Takes one basic block into account. Its two ends are registered, start
/// first. The block joins the trace if both ends gave a line, the two lines
/// lie in one file, the first before the second, the files that the two
/// addresses name pass the ancestor test, and the trace does not hold the
/// same block of source lines yet.
pub open spec fn step(sources: Seq<FileView>, st: MapState, bb: DrCovBasicBlock, r: ResolvedBlock)
    -> MapState {
    let (f1, s) = register_opt(st.files, sources, r.start);
    let (f2, e) = register_opt(f1, sources, r.end);
    let trace = if s is Some && e is Some && proper(SrcCovBasicBlock { start: s->0, end: e->0 })
        && passes(sources, r.start) && passes(sources, r.end) && !st.trace.source.contains(
        SrcCovBasicBlock { start: s->0, end: e->0 },
    ) {
        with_block(st.trace, bb, s->0, e->0)
    } else {
        st.trace
    };
    MapState { files: f2, trace }
}

/// Takes the blocks from index `k` on into account, in order.
pub open spec fn map_from(
    sources: Seq<FileView>,
    blocks: Seq<DrCovBasicBlock>,
    resolved: Seq<ResolvedBlock>,
    k: int,
    st: MapState,
) -> MapState
    decreases blocks.len() - k,
{
    if k < 0 || k >= blocks.len() {
        st
    } else {
        map_from(sources, blocks, resolved, k + 1, step(sources, st, blocks[k], resolved[k]))
    }
}

/// The state of a mapping that started in `st` when the first `j` blocks
/// have been taken into account.
pub open spec fn state_before(
    sources: Seq<FileView>,
    blocks: Seq<DrCovBasicBlock>,
    resolved: Seq<ResolvedBlock>,
    j: int,
    st: MapState,
) -> MapState
    decreases j,
{
    if j <= 0 {
        st
    } else {
        step(
            sources,
            state_before(sources, blocks, resolved, j - 1, st),
            blocks[j - 1],
            resolved[j - 1],
        )
    }
}

/// The block of source lines that the two ends of a basic block give when
/// they are registered with `files`, start first; none unless both ends give
/// a line.
pub open spec fn lines_of(sources: Seq<FileView>, files: FilesModel, r: ResolvedBlock) -> Option<
    SrcCovBasicBlock,
> {
    let (f1, s) = register_opt(files, sources, r.start);
    let (f2, e) = register_opt(f1, sources, r.end);
    if s is Some && e is Some {
        Some(SrcCovBasicBlock { start: s->0, end: e->0 })
    } else {
        None
    }
}

/// Taking the blocks from `k` on into account, one after the other, ends in
/// the state that the mapping has when all blocks have been taken into
/// account.
pub proof fn lemma_map_from_is_last_state(
    sources: Seq<FileView>,
    blocks: Seq<DrCovBasicBlock>,
    resolved: Seq<ResolvedBlock>,
    k: int,
    st: MapState,
)
    requires
        0 <= k <= blocks.len(),
    ensures
        map_from(sources, blocks, resolved, k, state_before(sources, blocks, resolved, k, st))
            == state_before(sources, blocks, resolved, blocks.len() as int, st),
    decreases blocks.len() - k,
{
    if k < blocks.len() {
        lemma_map_from_is_last_state(sources, blocks, resolved, k + 1, st);
    }
}

/// In the trace that a mapping gives, the basic blocks and the blocks of
/// source lines stand index by index: each basic block of the trace is one
/// of the blocks that were mapped, and the block of source lines at its
/// index is what the two ends of that block gave when they were registered.
pub proof fn lemma_blocks_aligned(
    sources: Seq<FileView>,
    blocks: Seq<DrCovBasicBlock>,
    resolved: Seq<ResolvedBlock>,
    st: MapState,
    n: int,
    i: int,
)
    requires
        st.trace == TraceModel::empty(),
        0 <= n <= blocks.len(),
        0 <= i < state_before(sources, blocks, resolved, n, st).trace.source.len(),
    ensures
        state_before(sources, blocks, resolved, n, st).trace.binary.len() == state_before(
            sources,
            blocks,
            resolved,
            n,
            st,
        ).trace.source.len(),
        exists|j: int|
            0 <= j < n && state_before(sources, blocks, resolved, n, st).trace.binary[i]
                == #[trigger] blocks[j] && Some(
                state_before(sources, blocks, resolved, n, st).trace.source[i],
            ) == lines_of(
                sources,
                state_before(sources, blocks, resolved, j, st).files,
                resolved[j],
            ),
    decreases n,
{
    lemma_state_lengths(sources, blocks, resolved, st, n);
    if n > 0 {
        let before = state_before(sources, blocks, resolved, n - 1, st);
        let after = state_before(sources, blocks, resolved, n, st);
        lemma_state_lengths(sources, blocks, resolved, st, n - 1);
        if i < before.trace.source.len() {
            lemma_blocks_aligned(sources, blocks, resolved, st, n - 1, i);
            let j = choose|j: int|
                0 <= j < n - 1 && before.trace.binary[i] == #[trigger] blocks[j] && Some(
                    before.trace.source[i],
                ) == lines_of(
                    sources,
                    state_before(sources, blocks, resolved, j, st).files,
                    resolved[j],
                );
            assert(after.trace.binary[i] == blocks[j]);
            assert(after.trace.source[i] == before.trace.source[i]);
        } else {
            assert(after.trace.binary[i] == blocks[n - 1]);
            assert(Some(after.trace.source[i]) == lines_of(sources, before.files, resolved[n - 1]));
        }
    }
}

/// A mapping that starts without blocks has a block of source lines for
/// each basic block at every stage.
pub proof fn lemma_state_lengths(
    sources: Seq<FileView>,
    blocks: Seq<DrCovBasicBlock>,
    resolved: Seq<ResolvedBlock>,
    st: MapState,
    n: int,
)
    requires
        st.trace == TraceModel::empty(),
    ensures
        state_before(sources, blocks, resolved, n, st).trace.binary.len() == state_before(
            sources,
            blocks,
            resolved,
            n,
            st,
        ).trace.source.len(),
    decreases n,
{
    if n > 0 {
        lemma_state_lengths(sources, blocks, resolved, st, n - 1);
    }
}

/// File `f + 1` of `sut` is as it was registered, with the lines `text` and
/// no coverage.
pub open spec fn fresh_file(sut: SUT, f: int, text: Seq<Seq<char>>) -> bool {
    let id = FileId((f + 1) as usize);
    &&& sut.files()[f].lines@ == Seq::new(text.len(), |j: int| LineId(id, (j + 1) as u32))
    &&& sut.files()[f].unique_line_hits@ == Map::<u32, u32>::empty()
    &&& views_of(sut.line_records()[f]@) == Seq::new(
        text.len(),
        |j: int|
            LineMetaView {
                file_id: id,
                line_num: (j + 1) as u32,
                hit_count: 0,
                fuzzer_configuration_ids: Seq::<u32>::empty(),
                is_comment: is_comment_line(text[j]),
            },
    )
}

/// `sut` is `start` with the files of `files.texts` registered after those
/// of `start`, in order, and nothing else changed.
pub open spec fn tracks(sut: SUT, start: SUT, files: FilesModel) -> bool {
    let n0 = start.files().len() as int;
    &&& start.wf()
    &&& sut.wf()
    &&& sut.allowed_folders() == start.allowed_folders()
    &&& sut.allowed_extensions() == start.allowed_extensions()
    &&& sut.files().len() == files.names.len()
    &&& files.names.len() == n0 + files.texts.len()
    &&& names_of(sut.files()) == files.names
    &&& forall|f: int|
        0 <= f < n0 ==> (#[trigger] sut.files()[f]) == start.files()[f] && sut.line_records()[f]
            == start.line_records()[f]
    &&& forall|k: int| 0 <= k < files.texts.len() ==> fresh_file(sut, n0 + k, #[trigger] files.texts[k])
    &&& (start.coverage_consistent() ==> sut.coverage_consistent())
}

/// Looking a name up among files gives what looking it up among their names
/// gives.
pub proof fn lemma_name_index(files: Seq<FileMeta>, name: Seq<char>, from: int)
    requires
        0 <= from,
    ensures
        first_index(files, has_name(name), from) == first_index(
            names_of(files),
            is_name(name),
            from,
        ),
    decreases files.len() - from,
{
    if from < files.len() {
        assert(names_of(files)[from] == files[from].name@);
        if files[from].name@ != name {
            lemma_name_index(files, name, from + 1);
        }
    }
}

/// Whether `l` is among the elements of `v`.
fn contains_line(v: &Vec<LineId>, l: LineId) -> (b: bool)
    ensures
        b == v@.contains(l),
{
    let mut i: usize = 0;
    while i < v.len()
        invariant
            i <= v@.len(),
            forall|j: int| 0 <= j < i ==> v@[j] != l,
        decreases v@.len() - i,
    {
        if v[i] == l {
            return true;
        }
        i = i + 1;
    }
    false
}

/// Whether `b` is among the elements of `v`.
fn contains_block(v: &Vec<SrcCovBasicBlock>, b: SrcCovBasicBlock) -> (r: bool)
    ensures
        r == v@.contains(b),
{
    let mut i: usize = 0;
    while i < v.len()
        invariant
            i <= v@.len(),
            forall|j: int| 0 <= j < i ==> v@[j] != b,
        decreases v@.len() - i,
    {
        if v[i] == b {
            return true;
        }
        i = i + 1;
    }
    false
}

/// Adds the lines `from ..= to` of `file` that `lines` does not hold yet.
fn insert_lines(lines: &mut Vec<LineId>, file: FileId, from: u32, to: u32)
    ensures
        final(lines)@ == add_lines(old(lines)@, file, from as int, to as int),
{
    let mut n: u64 = from as u64;
    while n <= to as u64
        invariant
            from <= n,
            n <= to + 1 || n == from,
            add_lines(old(lines)@, file, from as int, to as int) == add_lines(
                lines@,
                file,
                n as int,
                to as int,
            ),
        decreases to + 1 - n,
    {
        let l = LineId(file, n as u32);
        if !contains_line(lines, l) {
            lines.push(l);
        }
        n = n + 1;
    }
}

impl Trace {
    /// The trace without any block.
    pub fn new() -> (r: Self)
        ensures
            r@ == TraceModel::empty(),
            r@.wf(),
    {
        let r = Trace { binary: Vec::new(), source: Vec::new(), unique_lines_set: Vec::new() };
        proof {
            assert(r@.lines.to_set() =~= covered(r@.source));
        }
        r
    }
}

/// What is to be resolved for the module with id `id` of a trace: the
/// basic blocks of the module, by address, and the base address of the first
/// module with that id.
pub open spec fn module_plan(content: TraceContent, id: u16) -> Result<
    (Seq<DrCovBasicBlock>, u64),
    TraceError,
> {
    if !content.addresses_fit() {
        Err(TraceError::AddressOverflow)
    } else {
        match content.module_index(id) {
            Some(j) => Ok((content.module_blocks(id), content.modules[j].base)),
            None => Ok((Seq::empty(), 0)),
        }
    }
}

/// What is to be resolved for a trace: the basic blocks of the target, by
/// address, and the base address of the target. The target is the first
/// module whose path ends with `target`.
pub open spec fn plan(bytes: Seq<u8>, target: Seq<char>) -> Result<
    (Seq<DrCovBasicBlock>, u64),
    TraceError,
> {
    if bytes.len() == 0 {
        Ok((Seq::empty(), 0))
    } else {
        match parse_trace(bytes) {
            Err(e) => Err(TraceError::Format(e)),
            Ok(content) => match content.module_index_by_path(target) {
                None => Err(TraceError::ModuleNotFound),
                Some(i) => module_plan(content, content.modules[i].id),
            },
        }
    }
}

/// The basic blocks of the target in one trace, ready to be mapped.
pub struct TraceMap {
    blocks: Vec<DrCovBasicBlock>,
    base: u64,
}

impl TraceMap {
    /// The basic blocks of the target, by address.
    pub closed spec fn blocks(&self) -> Seq<DrCovBasicBlock> {
        self.blocks@
    }

    /// The address at which the target was loaded.
    pub closed spec fn base(&self) -> u64 {
        self.base
    }

    /// No block starts before the base of the target or ends before it
    /// starts.
    pub open spec fn wf(&self) -> bool {
        forall|k: int|
            0 <= k < self.blocks().len() ==> self.base() <= (#[trigger] self.blocks()[k]).start
                <= self.blocks()[k].end
    }

    /// The basic blocks of the module with id `id` of a trace that has been
    /// read, taken from the base of the first module with that id. A trace
    /// with a block beyond 64 bits is refused.
    pub fn from_module(reader: &DrCovReader, id: u16) -> (r: Result<TraceMap, TraceError>)
        ensures
            match r {
                Ok(map) => module_plan(reader@, id) matches Ok(planned) && planned.0
                    == map.blocks() && planned.1 == map.base() && map.wf(),
                Err(e) => module_plan(reader@, id) matches Err(why) && why == e,
            },
    {
        if !reader.addresses_in_range() {
            return Err(TraceError::AddressOverflow);
        }
        match reader.module_by_id(id) {
            Some(owner) => {
                let base = owner.base;
                let blocks = reader.basic_blocks_for_module_id(id);
                proof {
                    let content = reader@;
                    assert forall|k: int| 0 <= k < blocks@.len() implies base <= (
                    #[trigger] blocks@[k]).start <= blocks@[k].end by {
                        assert forall|j: int|
                            0 <= j < content.blocks.len() && (#[trigger] content.blocks[j]).mod_id
                                == id implies owner@.base + content.blocks[j].start
                            + content.blocks[j].size <= u64::MAX by {
                            assert(content.module_index(content.blocks[j].mod_id) is Some);
                        }
                        lemma_module_blocks_from_base(
                            content,
                            owner@,
                            id,
                            content.blocks.len() as int,
                            k,
                        );
                    }
                }
                Ok(TraceMap { blocks, base })
            },
            None => Ok(TraceMap { blocks: Vec::new(), base: 0 }),
        }
    }

    /// Reads a trace and picks the basic blocks of the target: the first
    /// module whose path ends with the path of the target. A trace of no
    /// bytes has no blocks.
    pub fn new(trace: &[u8], target_config: &TargetConfig) -> (r: Result<TraceMap, TraceError>)
        ensures
            match r {
                Ok(map) => plan(trace@, target_config.target_path@) matches Ok(planned)
                    && planned.0 == map.blocks() && planned.1 == map.base() && map.wf(),
                Err(e) => plan(trace@, target_config.target_path@) matches Err(why) && why == e,
            },
    {
        if trace.len() == 0 {
            return Ok(TraceMap { blocks: Vec::new(), base: 0 });
        }
        let reader = match DrCovReader::read(trace) {
            Ok(reader) => reader,
            Err(e) => {
                return Err(TraceError::Format(e));
            },
        };
        let id = match reader.get_module_entry(target_config.target_path.as_str()) {
            Some(module) => module.id,
            None => {
                return Err(TraceError::ModuleNotFound);
            },
        };
        Self::from_module(&reader, id)
    }

    /// The number of basic blocks.
    pub fn block_count(&self) -> (r: usize)
        ensures
            r == self.blocks().len(),
    {
        self.blocks.len()
    }

    /// For each basic block, the two addresses to resolve: its start and
    /// its end, both taken from the base of the target.
    pub fn addresses(&self) -> (r: Vec<(u64, u64)>)
        requires
            self.wf(),
        ensures
            r@.len() == self.blocks().len(),
            forall|k: int|
                0 <= k < r@.len() ==> (#[trigger] r@[k]).0 == self.blocks()[k].start - self.base()
                    && r@[k].1 == self.blocks()[k].end - self.base(),
    {
        let mut r: Vec<(u64, u64)> = Vec::new();
        let mut k: usize = 0;
        while k < self.blocks.len()
            invariant
                self.wf(),
                k <= self.blocks@.len(),
                r@.len() == k,
                forall|n: int|
                    0 <= n < k ==> (#[trigger] r@[n]).0 == self.blocks()[n].start - self.base()
                        && r@[n].1 == self.blocks()[n].end - self.base(),
            decreases self.blocks@.len() - k,
        {
            let b = self.blocks[k];
            proof {
                assert(self.blocks()[k as int] == b);
            }
            r.push((b.start - self.base, b.end - self.base));
            k = k + 1;
        }
        r
    }

    /// Asks the debug information of the target for the source locations of
    /// the two ends of each basic block, in order. The addresses asked for
    /// are those that [`Self::addresses`] gives. An end at the greatest
    /// address there is has no location. Lines are counted from 1.
    pub fn locate(&self, loader: &TraceLoader) -> (r: Vec<LocatedBlock>)
        requires
            self.wf(),
        ensures
            r@.len() == self.blocks().len(),
            forall|k: int| 0 <= k < r@.len() ==> counted_from_one(#[trigger] r@[k]),
            forall|k: int|
                0 <= k < r@.len() && self.blocks()[k].start - self.base() == u64::MAX ==> (
                #[trigger] r@[k]).start is None,
            forall|k: int|
                0 <= k < r@.len() && self.blocks()[k].end - self.base() == u64::MAX ==> (
                #[trigger] r@[k]).end is None,
    {
        let pairs = self.addresses();
        let mut r: Vec<LocatedBlock> = Vec::new();
        let mut k: usize = 0;
        while k < pairs.len()
            invariant
                k <= pairs@.len(),
                r@.len() == k,
                forall|n: int| 0 <= n < k ==> counted_from_one(#[trigger] r@[n]),
                forall|n: int|
                    0 <= n < k && pairs@[n].0 == u64::MAX ==> (#[trigger] r@[n]).start is None,
                forall|n: int|
                    0 <= n < k && pairs@[n].1 == u64::MAX ==> (#[trigger] r@[n]).end is None,
            decreases pairs@.len() - k,
        {
            let pair = pairs[k];
            let start = loader.get_location(pair.0);
            let end = loader.get_location(pair.1);
            r.push(LocatedBlock { start, end });
            k = k + 1;
        }
        r
    }

    /// Registers the file of a resolved address with `sut_db` and gives the
    /// line that the address names.
    fn register_address(
        sut_db: &mut SUT,
        a: &ResolvedAddress,
        files: &Vec<SourceFile>,
        verdicts: &Vec<Verdict>,
        Ghost(start): Ghost<SUT>,
        Ghost(model): Ghost<FilesModel>,
    ) -> (r: Option<LineId>)
        requires
            tracks(*old(sut_db), start, model),
            verdicts@.len() == files@.len(),
        ensures
            tracks(*final(sut_db), start, register(model, file_views(files@, verdicts@), *a).0),
            r == register(model, file_views(files@, verdicts@), *a).1,
    {
        if a.file >= files.len() {
            return None;
        }
        let file = &files[a.file];
        let admissible = verdicts[a.file].admissible;
        let ghost before = *sut_db;
        let ghost view = file_views(files@, verdicts@)[a.file as int];
        let ghost p = has_name(file.path@);
        proof {
            lemma_name_index(before.files(), file.path@, 0);
            lemma_first_index(before.files(), p, 0);
        }
        let content: Option<&str> = match &file.content {
            Some(text) => Some(text.as_str()),
            None => None,
        };
        let id = sut_db.parse_file_decided(file.path.as_str(), admissible, content);
        proof {
            let after = register(model, file_views(files@, verdicts@), *a).0;
            let n0 = start.files().len() as int;
            let q = is_name(file.path@);
            assert(view.path == file.path@);
            assert(view.admissible == admissible);
            assert(view.text == text_of(*file));
            assert(names_of(before.files()) == model.names);
            assert(first_index(before.files(), p, 0) == first_index(model.names, q, 0));
            if before.file_id_of(file.path@) is Some {
                assert(*sut_db == before);
                assert(after == model);
            } else if !(admissible && before.takes(content)) {
                assert(*sut_db == before);
                assert(after == model);
            } else {
                let f = before.files().len() as int;
                assert(after.names == model.names.push(file.path@));
                assert(after.texts == model.texts.push(text_of(*file)));
                assert(sut_db.files()[f] == sut_db.files().last());
                assert(sut_db.line_records()[f] == sut_db.line_records().last());
                assert forall|g: int| 0 <= g < f implies (#[trigger] sut_db.files()[g])
                    == before.files()[g] && sut_db.line_records()[g] == before.line_records()[g] by {
                    assert(sut_db.files()[g] == sut_db.files().drop_last()[g]);
                    assert(sut_db.line_records()[g] == sut_db.line_records().drop_last()[g]);
                }
                assert(names_of(sut_db.files()) =~= after.names) by {
                    assert forall|g: int| 0 <= g < f implies names_of(sut_db.files())[g]
                        == after.names[g] by {
                        assert(names_of(before.files())[g] == before.files()[g].name@);
                    }
                }
                assert forall|k: int| 0 <= k < after.texts.len() implies fresh_file(
                    *sut_db,
                    n0 + k,
                    #[trigger] after.texts[k],
                ) by {
                    if k < model.texts.len() {
                        assert(fresh_file(before, n0 + k, model.texts[k]));
                        assert(sut_db.files()[n0 + k] == before.files()[n0 + k]);
                        assert(sut_db.line_records()[n0 + k] == before.line_records()[n0 + k]);
                    } else {
                        assert(n0 + k == f);
                        assert(after.texts[k] == text_of(*file));
                    }
                }
            }
        }
        match id {
            Some(file_id) => Some(LineId(file_id, a.line)),
            None => None,
        }
    }

    /// [`Self::register_address`] for an address that may not have been
    /// resolved.
    fn register_end(
        sut_db: &mut SUT,
        a: &Option<ResolvedAddress>,
        files: &Vec<SourceFile>,
        verdicts: &Vec<Verdict>,
        Ghost(start): Ghost<SUT>,
        Ghost(model): Ghost<FilesModel>,
    ) -> (r: Option<LineId>)
        requires
            tracks(*old(sut_db), start, model),
            verdicts@.len() == files@.len(),
        ensures
            tracks(
                *final(sut_db),
                start,
                register_opt(model, file_views(files@, verdicts@), *a).0,
            ),
            r == register_opt(model, file_views(files@, verdicts@), *a).1,
    {
        match a {
            Some(x) => Self::register_address(sut_db, x, files, verdicts, Ghost(start), Ghost(model)),
            None => None,
        }
    }

    /// Decides of each source file whether its path is admissible to the
    /// index and whether it passes the ancestor test.
    pub fn decide(files: &Vec<SourceFile>, target_config: &TargetConfig, sut_db: &SUT) -> (r: Vec<
        Verdict,
    >)
        ensures
            r@ == verdicts_of(*sut_db, target_config, files@),
    {
        let mut r: Vec<Verdict> = Vec::new();
        let mut k: usize = 0;
        while k < files.len()
            invariant
                k <= files@.len(),
                r@ == verdicts_of(*sut_db, target_config, files@).take(k as int),
            decreases files@.len() - k,
        {
            let file = &files[k];
            r.push(
                Verdict {
                    admissible: sut_db.path_admissible(file.path.as_str(), file.is_dir),
                    passes: check_ancestors(file.path.as_str(), target_config),
                },
            );
            proof {
                assert(r@ =~= verdicts_of(*sut_db, target_config, files@).take(k + 1));
            }
            k = k + 1;
        }
        proof {
            let all = verdicts_of(*sut_db, target_config, files@);
            assert(all.take(k as int) == all);
        }
        r
    }

    /// The state in which a mapping starts from the index `sut`.
    pub open spec fn initial(sut: SUT) -> MapState {
        MapState {
            files: FilesModel { names: names_of(sut.files()), texts: Seq::empty() },
            trace: TraceModel::empty(),
        }
    }

    /// Maps the basic blocks to blocks of source lines, given what
    /// has been decided of each source file.
    ///
    /// `resolved` holds, for each basic block in order, what its two
    /// addresses resolve to; `files` lists the source files that the
    /// addresses name, and `verdicts` what has been decided of each. The
    /// files are registered with `sut_db` as the addresses come, the start
    /// of a block before its end. A block joins the trace if both its ends
    /// name a line of a registered file, the two lines lie in one file, the
    /// first before the second, the files that the two addresses name pass
    /// the ancestor test, and no earlier block gave the same pair of lines.
    pub fn map_blocks(
        self,
        files: &Vec<SourceFile>,
        verdicts: &Vec<Verdict>,
        resolved: &Vec<ResolvedBlock>,
        sut_db: &mut SUT,
    ) -> (r: Trace)
        requires
            old(sut_db).wf(),
            resolved@.len() == self.blocks().len(),
            verdicts@.len() == files@.len(),
        ensures
            r@.wf(),
            r@ == map_from(
                file_views(files@, verdicts@),
                self.blocks(),
                resolved@,
                0,
                Self::initial(*old(sut_db)),
            ).trace,
            tracks(
                *final(sut_db),
                *old(sut_db),
                map_from(
                    file_views(files@, verdicts@),
                    self.blocks(),
                    resolved@,
                    0,
                    Self::initial(*old(sut_db)),
                ).files,
            ),
    {
        let ghost sources = file_views(files@, verdicts@);
        let ghost start = *sut_db;
        let ghost mut st = Self::initial(start);
        let mut trace = Trace::new();
        proof {
            assert(names_of(start.files()) == st.files.names);
        }
        let mut k: usize = 0;
        while k < self.blocks.len()
            invariant
                k <= self.blocks@.len(),
                resolved@.len() == self.blocks@.len(),
                verdicts@.len() == files@.len(),
                sources == file_views(files@, verdicts@),
                tracks(*sut_db, start, st.files),
                trace@ == st.trace,
                trace@.wf(),
                map_from(sources, self.blocks@, resolved@, 0, Self::initial(start)) == map_from(
                    sources,
                    self.blocks@,
                    resolved@,
                    k as int,
                    st,
                ),
            decreases self.blocks@.len() - k,
        {
            let bb = self.blocks[k];
            let block = &resolved[k];
            let ghost next = step(sources, st, bb, *block);
            let s = Self::register_end(
                sut_db,
                &block.start,
                files,
                verdicts,
                Ghost(start),
                Ghost(st.files),
            );
            let ghost f1 = register_opt(st.files, sources, block.start).0;
            let e = Self::register_end(sut_db, &block.end, files, verdicts, Ghost(start), Ghost(f1));
            match (s, e) {
                (Some(s), Some(e)) => {
                    let candidate = SrcCovBasicBlock { start: s, end: e };
                    if s.0.0 == e.0.0 && s.1 < e.1 && Self::passes_test(
                        &block.start,
                        files,
                        verdicts,
                    )
                        && Self::passes_test(&block.end, files, verdicts) && !contains_block(
                        &trace.source,
                        candidate,
                    ) {
                        let ghost before = trace@;
                        insert_lines(&mut trace.unique_lines_set, s.0, s.1, e.1);
                        trace.binary.push(bb);
                        trace.source.push(candidate);
                        proof {
                            lemma_add_lines(before.lines, s.0, s.1 as int, e.1 as int);
                            assert(trace@ == with_block(before, bb, s, e));
                            assert(trace@.lines == add_lines(
                                before.lines,
                                s.0,
                                s.1 as int,
                                e.1 as int,
                            ));
                            assert forall|l: LineId|
                                trace@.lines.to_set().contains(l) == covered(
                                    trace@.source,
                                ).contains(l) by {
                                let in_new = l.0 == s.0 && s.1 <= l.1 <= e.1;
                                assert(interval(candidate).contains(l) == in_new);
                                assert(trace@.lines.to_set().contains(l) == (
                                before.lines.to_set().contains(l) || in_new));
                                assert(before.lines.to_set().contains(l) == covered(
                                    before.source,
                                ).contains(l));
                                if covered(trace@.source).contains(l) {
                                    let i = choose|i: int|
                                        0 <= i < trace@.source.len() && interval(
                                            #[trigger] trace@.source[i],
                                        ).contains(l);
                                    if i < before.source.len() {
                                        assert(before.source[i] == trace@.source[i]);
                                        assert(covered(before.source).contains(l));
                                    } else {
                                        assert(trace@.source[i] == candidate);
                                    }
                                }
                                if covered(before.source).contains(l) {
                                    let i = choose|i: int|
                                        0 <= i < before.source.len() && interval(
                                            #[trigger] before.source[i],
                                        ).contains(l);
                                    assert(trace@.source[i] == before.source[i]);
                                    assert(covered(trace@.source).contains(l));
                                }
                                if in_new {
                                    assert(trace@.source[before.source.len() as int] == candidate);
                                    assert(covered(trace@.source).contains(l));
                                }
                            }
                            assert(trace@.lines.to_set() =~= covered(trace@.source));
                            assert(trace@.source.no_duplicates()) by {
                                assert forall|a: int, b: int|
                                    0 <= a < trace@.source.len() && 0 <= b < trace@.source.len()
                                        && a != b implies trace@.source[a] != trace@.source[b] by {
                                    if a < before.source.len() && b < before.source.len() {
                                    } else if a < before.source.len() {
                                        assert(before.source.contains(before.source[a]));
                                    } else {
                                        assert(before.source.contains(before.source[b]));
                                    }
                                }
                            }
                        }
                    }
                },
                _ => {},
            }
            proof {
                st = next;
            }
            k = k + 1;
        }
        trace
    }

    /// Maps the basic blocks to blocks of source lines.
    ///
    /// `resolved` holds, for each basic block in order, what its two
    /// addresses resolve to; `files` lists the source files that the
    /// addresses name. Of each file it is decided whether its path is
    /// admissible to the index and whether it passes the ancestor test; then
    /// the blocks are mapped as [`Self::map_blocks`] says.
    pub fn parse_with_config(
        self,
        files: &Vec<SourceFile>,
        resolved: &Vec<ResolvedBlock>,
        target_config: &TargetConfig,
        sut_db: &mut SUT,
    ) -> (r: Trace)
        requires
            old(sut_db).wf(),
            resolved@.len() == self.blocks().len(),
        ensures
            r@.wf(),
            r@ == map_from(
                file_views(files@, verdicts_of(*old(sut_db), target_config, files@)),
                self.blocks(),
                resolved@,
                0,
                Self::initial(*old(sut_db)),
            ).trace,
            tracks(
                *final(sut_db),
                *old(sut_db),
                map_from(
                    file_views(files@, verdicts_of(*old(sut_db), target_config, files@)),
                    self.blocks(),
                    resolved@,
                    0,
                    Self::initial(*old(sut_db)),
                ).files,
            ),
    {
        let verdicts = Self::decide(files, target_config, sut_db);
        self.map_blocks(files, &verdicts, resolved, sut_db)
    }

    /// Whether the address was resolved to a file that passes the ancestor
    /// test.
    fn passes_test(
        a: &Option<ResolvedAddress>,
        files: &Vec<SourceFile>,
        verdicts: &Vec<Verdict>,
    ) -> (r: bool)
        requires
            verdicts@.len() == files@.len(),
        ensures
            r == passes(file_views(files@, verdicts@), *a),
    {
        match a {
            Some(x) => x.file < verdicts.len() && verdicts[x.file].passes,
            None => false,
        }
    }
}

} // verus!
