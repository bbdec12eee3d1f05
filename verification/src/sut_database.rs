//! Index of the source files and lines of the system under test.
//!
//! Files get dense ids in the order in which they are first admitted. Each
//! file has one record per line of its text, and each record counts the
//! coverage events of its line and lists the fuzzer configurations that
//! reached it.

use crate::config::TargetConfig;
use crate::custom_types::FileId;
use crate::custom_types::FileMeta;
use crate::custom_types::LineId;
use crate::custom_types::LineMeta;
use crate::custom_types::LineMetaView;
use crate::custom_types::no_hits;
use crate::paths::extension_of;
use crate::paths::parent_of;
use crate::paths::path_extension;
use crate::paths::path_parent;
use crate::paths::path_starts_with;
use crate::paths::starts_with_path;
use crate::search::first_index;
use crate::search::lemma_first_index;
use crate::text::contains_u32;
use crate::text::line_ranges;
use crate::text::lines;
use crate::text::matches_at;
use crate::text::occurs_at;
use crate::text::pieces;
use crate::text::ranges_within;
use crate::text::scan;
use crate::text::scan_for;
use crate::text::slice_of;
use crate::text::to_chars;
use vstd::prelude::*;

verus! {

/// The first run of characters of `line` that holds no white space; empty
/// if the line holds nothing else.
pub open spec fn first_word(line: Seq<char>) -> Seq<char> {
    let a = scan(line, 0, false);
    let b = scan(line, a, true);
    line.subrange(a, b)
}

/// A line counts as a comment if it is empty, or if its first word starts
/// with `//`, `/*` or `*/`, or is a lone `*`.
pub open spec fn is_comment_line(line: Seq<char>) -> bool {
    let w = first_word(line);
    line.len() == 0 || occurs_at(w, seq!['/', '*'], 0) || occurs_at(w, seq!['*', '/'], 0)
        || occurs_at(w, seq!['/', '/'], 0) || w == seq!['*']
}

/// Whether `line` counts as a comment.
pub fn comment_line(line: &[char]) -> (r: bool)
    ensures
        r == is_comment_line(line@),
{
    if line.len() == 0 {
        return true;
    }
    let a = scan_for(line, 0, false);
    let b = scan_for(line, a, true);
    let w = slice_of(line, a, b);
    let open: Vec<char> = vec!['/', '*'];
    let close: Vec<char> = vec!['*', '/'];
    let slashes: Vec<char> = vec!['/', '/'];
    assert(open@ == seq!['/', '*']);
    assert(close@ == seq!['*', '/']);
    assert(slashes@ == seq!['/', '/']);
    if matches_at(w, open.as_slice(), 0) || matches_at(w, close.as_slice(), 0) || matches_at(
        w,
        slashes.as_slice(),
        0,
    ) {
        return true;
    }
    let lone = w.len() == 1 && w[0] == '*';
    proof {
        if lone {
            assert(w@ == seq!['*']);
        }
    }
    lone
}

/// The record of a line after one more coverage event by configuration
/// `c`.
pub open spec fn covered_by(m: LineMetaView, c: u32) -> LineMetaView {
    LineMetaView {
        hit_count: (m.hit_count + 1) as u32,
        fuzzer_configuration_ids: if m.fuzzer_configuration_ids.contains(c) {
            m.fuzzer_configuration_ids
        } else {
            m.fuzzer_configuration_ids.push(c)
        },
        ..m
    }
}

/// After one more coverage event by configuration `c`, a line lists `c`,
/// and any other configuration exactly if it listed it before.
pub proof fn lemma_covered_by_lists(m: LineMetaView, c: u32, k: u32)
    ensures
        covered_by(m, c).fuzzer_configuration_ids.contains(k) <==> (k == c
            || m.fuzzer_configuration_ids.contains(k)),
{
    let ids = m.fuzzer_configuration_ids;
    if !ids.contains(c) {
        assert(ids.push(c)[ids.len() as int] == c);
        if ids.push(c).contains(k) {
            let i = choose|i: int| 0 <= i < ids.push(c).len() && ids.push(c)[i] == k;
            if i < ids.len() {
                assert(ids[i] == k);
            }
        }
        if ids.contains(k) {
            let i = choose|i: int| 0 <= i < ids.len() && ids[i] == k;
            assert(ids.push(c)[i] == k);
        }
    }
}

/// One more coverage event leaves the list of configurations of a line
/// without repetitions: the list stays as it is if it holds the
/// configuration, and gets it at its end otherwise. Unless the count of the
/// line is at its limit, the line has still counted at least one event for
/// each configuration it lists.
pub proof fn lemma_covered_by_once(m: LineMetaView, c: u32)
    requires
        m.fuzzer_configuration_ids.no_duplicates(),
    ensures
        covered_by(m, c).fuzzer_configuration_ids.no_duplicates(),
        covered_by(m, c).fuzzer_configuration_ids == if m.fuzzer_configuration_ids.contains(c) {
            m.fuzzer_configuration_ids
        } else {
            m.fuzzer_configuration_ids.push(c)
        },
        m.hit_count >= m.fuzzer_configuration_ids.len() && m.hit_count < u32::MAX ==> covered_by(
            m,
            c,
        ).hit_count >= covered_by(m, c).fuzzer_configuration_ids.len(),
{
    let ids = m.fuzzer_configuration_ids;
    if !ids.contains(c) {
        let next = ids.push(c);
        assert forall|a: int, b: int|
            0 <= a < next.len() && 0 <= b < next.len() && a != b implies next[a] != next[b] by {
            if a < ids.len() && b < ids.len() {
                assert(ids[a] != ids[b]);
            } else if a < ids.len() {
                assert(ids.contains(ids[a]));
            } else {
                assert(ids.contains(ids[b]));
            }
        }
    }
}

/// The record of line `j + 1` of file `f + 1` is in order: it names its own
/// file and line, lists no configuration twice, and has counted at least one
/// event for each configuration it lists.
pub open spec fn line_wf(m: LineMetaView, f: int, j: int) -> bool {
    &&& m.file_id == FileId((f + 1) as usize)
    &&& m.line_num == j + 1
    &&& m.hit_count >= m.fuzzer_configuration_ids.len()
    &&& m.fuzzer_configuration_ids.no_duplicates()
}

/// How many of `lines` configuration `c` has covered.
pub open spec fn count_covering(lines: Seq<LineMetaView>, c: u32) -> nat
    decreases lines.len(),
{
    if lines.len() == 0 {
        0
    } else {
        count_covering(lines.drop_last(), c) + if lines.last().fuzzer_configuration_ids.contains(
            c,
        ) {
            1nat
        } else {
            0nat
        }
    }
}

/// The count a file keeps for configuration `c`: zero where it has no
/// entry.
pub open spec fn hits_of(hits: Map<u32, u32>, c: u32) -> nat {
    if hits.contains_key(c) {
        hits[c] as nat
    } else {
        0
    }
}

/// The mathematical content of a list of line records.
pub open spec fn views_of(lines: Seq<LineMeta>) -> Seq<LineMetaView> {
    Seq::new(lines.len(), |j: int| lines[j]@)
}

/// No more lines are counted than there are.
pub proof fn lemma_count_covering_bound(lines: Seq<LineMetaView>, c: u32)
    ensures
        count_covering(lines, c) <= lines.len(),
    decreases lines.len(),
{
    if lines.len() > 0 {
        lemma_count_covering_bound(lines.drop_last(), c);
    }
}

/// Replacing one record changes the count for `c` by what that record
/// contributes.
pub proof fn lemma_count_covering_update(
    lines: Seq<LineMetaView>,
    j: int,
    m: LineMetaView,
    c: u32,
)
    requires
        0 <= j < lines.len(),
    ensures
        count_covering(lines.update(j, m), c) + (if lines[j].fuzzer_configuration_ids.contains(c) {
            1nat
        } else {
            0nat
        }) == count_covering(lines, c) + (if m.fuzzer_configuration_ids.contains(c) {
            1nat
        } else {
            0nat
        }),
    decreases lines.len(),
{
    let updated = lines.update(j, m);
    if j == lines.len() - 1 {
        assert(updated.drop_last() == lines.drop_last());
    } else {
        assert(updated.drop_last() == lines.drop_last().update(j, m));
        lemma_count_covering_update(lines.drop_last(), j, m, c);
    }
}

/// Records that have been covered by no configuration count for none.
pub proof fn lemma_count_covering_fresh(lines: Seq<LineMetaView>, c: u32)
    requires
        forall|j: int| 0 <= j < lines.len() ==> (#[trigger] lines[j]).fuzzer_configuration_ids.len()
            == 0,
    ensures
        count_covering(lines, c) == 0,
    decreases lines.len(),
{
    if lines.len() > 0 {
        assert forall|j: int| 0 <= j < lines.drop_last().len() implies (
        #[trigger] lines.drop_last()[j]).fuzzer_configuration_ids.len() == 0 by {
            assert(lines.drop_last()[j] == lines[j]);
        }
        lemma_count_covering_fresh(lines.drop_last(), c);
        assert(lines.last() == lines[lines.len() - 1]);
    }
}

/// The coverage that an index has recorded: the line records, file by file,
/// and the counts of distinct covered lines that the files keep.
pub struct CoverageModel {
    pub lines: Seq<Seq<LineMetaView>>,
    pub hits: Seq<Map<u32, u32>>,
}

/// The record of line `l`, if there is one.
pub open spec fn model_line(m: CoverageModel, l: LineId) -> Option<LineMetaView> {
    if 1 <= l.0.0 <= m.lines.len() && 1 <= l.1 <= m.lines[l.0.0 - 1].len() {
        Some(m.lines[l.0.0 - 1][l.1 - 1])
    } else {
        None
    }
}

/// The coverage after one more coverage event of configuration `c` on line
/// `l`: the record of the line counts the event, and if it is the first of
/// `c` on the line, the file counts one more line for `c`. A line without
/// record changes nothing.
pub open spec fn record_line(m: CoverageModel, l: LineId, c: u32) -> CoverageModel {
    match model_line(m, l) {
        None => m,
        Some(v) => {
            let f = l.0.0 - 1;
            CoverageModel {
                lines: m.lines.update(f, m.lines[f].update(l.1 - 1, covered_by(v, c))),
                hits: if v.fuzzer_configuration_ids.contains(c) {
                    m.hits
                } else {
                    m.hits.update(f, m.hits[f].insert(c, (hits_of(m.hits[f], c) + 1) as u32))
                },
            }
        },
    }
}

/// The property of a file to be named `name`.
pub open spec fn has_name(name: Seq<char>) -> spec_fn(FileMeta) -> bool {
    |m: FileMeta| m.name@ == name
}

/// The lines among `lines` that configuration `c` has covered, by their
/// indices.
pub open spec fn covering(lines: Seq<LineMetaView>, c: u32) -> Set<int> {
    Set::new(|j: int| 0 <= j < lines.len() && lines[j].fuzzer_configuration_ids.contains(c))
}

/// [`count_covering`] is the number of lines that list the configuration.
pub proof fn lemma_count_covering_is_cardinality(lines: Seq<LineMetaView>, c: u32)
    ensures
        covering(lines, c).finite(),
        covering(lines, c).len() == count_covering(lines, c),
    decreases lines.len(),
{
    if lines.len() == 0 {
        assert(covering(lines, c) =~= Set::<int>::empty());
    } else {
        let rest = lines.drop_last();
        let last = lines.len() - 1;
        lemma_count_covering_is_cardinality(rest, c);
        if lines.last().fuzzer_configuration_ids.contains(c) {
            assert(covering(lines, c) =~= covering(rest, c).insert(last));
        } else {
            assert(covering(lines, c) =~= covering(rest, c));
        }
    }
}

/// The index of source files and lines.
#[derive(Clone)]
pub struct SUT {
    files: Vec<FileMeta>,
    line_metas: Vec<Vec<LineMeta>>,
    allowed_folders: Vec<String>,
    allowed_extensions: Vec<String>,
}

impl SUT {
    /// The files, in the order of their ids: the file with id `k` stands at
    /// index `k - 1`.
    pub closed spec fn files(&self) -> Seq<FileMeta> {
        self.files@
    }

    /// The line records, file by file and line by line.
    pub closed spec fn line_records(&self) -> Seq<Vec<LineMeta>> {
        self.line_metas@
    }

    /// The directories under which a source file must lie.
    pub closed spec fn allowed_folders(&self) -> Seq<String> {
        self.allowed_folders@
    }

    /// The extensions a source file may have; empty if any will do.
    pub closed spec fn allowed_extensions(&self) -> Seq<String> {
        self.allowed_extensions@
    }

    /// The mathematical content of the line records.
    pub open spec fn line_views(&self) -> Seq<Seq<LineMetaView>> {
        Seq::new(self.line_records().len(), |f: int| views_of(self.line_records()[f]@))
    }

    /// The coverage that the index has recorded.
    pub open spec fn coverage_model(&self) -> CoverageModel {
        CoverageModel {
            lines: self.line_views(),
            hits: Seq::new(self.files().len(), |f: int| self.files()[f].unique_line_hits@),
        }
    }

    /// `other` has the same files with the same names and lines, and allows
    /// the same directories and extensions.
    pub open spec fn same_files(&self, other: &SUT) -> bool {
        &&& self.files().len() == other.files().len()
        &&& forall|f: int|
            0 <= f < self.files().len() ==> (#[trigger] self.files()[f]).name == other.files()[f].name
                && self.files()[f].lines == other.files()[f].lines
        &&& self.allowed_folders() == other.allowed_folders()
        &&& self.allowed_extensions() == other.allowed_extensions()
    }

    /// The index has a record for `id`.
    pub open spec fn knows_line(&self, id: LineId) -> bool {
        &&& 1 <= id.0.0 <= self.line_records().len()
        &&& 1 <= id.1 <= self.line_records()[id.0.0 - 1]@.len()
    }

    /// The record of line `id`, if the index has one.
    pub open spec fn line_view(&self, id: LineId) -> Option<LineMetaView> {
        if self.knows_line(id) {
            Some(self.line_records()[id.0.0 - 1]@[id.1 - 1]@)
        } else {
            None
        }
    }

    /// The id under which the file named `name` is registered.
    pub open spec fn file_id_of(&self, name: Seq<char>) -> Option<FileId> {
        match first_index(self.files(), has_name(name), 0) {
            Some(f) => Some(FileId((f + 1) as usize)),
            None => None,
        }
    }

    /// The extension the admission test looks at: that of the path, or the
    /// empty string where the path has none.
    pub open spec fn extension_or_empty(name: Seq<char>) -> Seq<char> {
        match path_extension(name) {
            Some(e) => e,
            None => Seq::<char>::empty(),
        }
    }

    /// Some allowed extension equals `ext`.
    pub open spec fn extension_allowed(&self, ext: Seq<char>) -> bool {
        exists|k: int|
            0 <= k < self.allowed_extensions().len() && (#[trigger] self.allowed_extensions()[k])@
                == ext
    }

    /// Some allowed directory is a prefix of `dir`.
    pub open spec fn folder_allowed(&self, dir: Seq<char>) -> bool {
        exists|k: int|
            0 <= k < self.allowed_folders().len() && path_starts_with(
                dir,
                (#[trigger] self.allowed_folders()[k])@,
            )
    }

    /// A path is admissible if it is no directory, has an allowed extension
    /// where any are configured, and its parent directory lies under an
    /// allowed directory.
    pub open spec fn admits_path(&self, name: Seq<char>, is_dir: bool) -> bool {
        &&& !is_dir
        &&& self.allowed_extensions().len() == 0 || self.extension_allowed(
            Self::extension_or_empty(name),
        )
        &&& match path_parent(name) {
            Some(dir) => self.folder_allowed(dir),
            None => false,
        }
    }

    /// A file not seen before is admitted if its path is admissible. An
    /// index that cannot number one more file admits none. A file that is
    /// admitted is registered unless its text has more lines than can be
    /// numbered.
    pub open spec fn admits(&self, name: Seq<char>, is_dir: bool) -> bool {
        self.admits_path(name, is_dir) && self.files().len() < usize::MAX
    }

    /// The lines of a text as the index takes them: none for a text that
    /// could not be read.
    pub open spec fn text_lines(content: Option<&str>) -> Seq<Seq<char>> {
        match content {
            Some(text) => lines(text@),
            None => Seq::<Seq<char>>::empty(),
        }
    }

    /// A file can be taken in: a file id is left for it, and its text has
    /// no more lines than can be numbered.
    pub open spec fn takes(&self, content: Option<&str>) -> bool {
        self.files().len() < usize::MAX && Self::text_lines(content).len() <= u32::MAX
    }

    /// The index is `before` with one more file, named `name`: the file has
    /// the next id, which is `r`, one record per line of `text`, each
    /// without any coverage, and nothing else has changed.
    pub open spec fn registered(
        &self,
        before: &SUT,
        name: Seq<char>,
        text: Seq<Seq<char>>,
        r: Option<FileId>,
    ) -> bool {
        let id = FileId((before.files().len() + 1) as usize);
        &&& r == Some(id)
        &&& self.files().len() == before.files().len() + 1
        &&& self.files().drop_last() == before.files()
        &&& self.files().last().name@ == name
        &&& self.files().last().lines@ == Seq::new(text.len(), |j: int| LineId(id, (j + 1) as u32))
        &&& self.files().last().unique_line_hits@ == no_hits()
        &&& self.line_records().drop_last() == before.line_records()
        &&& views_of(self.line_records().last()@) == Seq::new(
            text.len(),
            |j: int|
                LineMetaView {
                    file_id: id,
                    line_num: (j + 1) as u32,
                    hit_count: 0,
                    fuzzer_configuration_ids: Seq::<u32>::empty(),
                    is_comment: is_comment_line(text[j]),
                },
        )
    }

    /// File `f + 1` and its line records agree.
    pub open spec fn file_wf(&self, f: int) -> bool {
        let meta = self.files()[f];
        let records = self.line_records()[f]@;
        &&& records.len() <= u32::MAX
        &&& meta.lines@.len() == records.len()
        &&& forall|j: int|
            0 <= j < records.len() ==> line_wf((#[trigger] records[j])@, f, j)
        &&& forall|j: int|
            0 <= j < records.len() ==> (#[trigger] meta.lines@[j]) == LineId(
                FileId((f + 1) as usize),
                (j + 1) as u32,
            )
    }

    /// The index is in order: its files can be numbered, every file has its
    /// line records, and no two files share a name.
    pub open spec fn wf(&self) -> bool {
        &&& self.files().len() <= usize::MAX
        &&& self.files().len() == self.line_records().len()
        &&& forall|f: int| 0 <= f < self.files().len() ==> #[trigger] self.file_wf(f)
        &&& forall|f: int, g: int|
            0 <= f < g < self.files().len() ==> (#[trigger] self.files()[f]).name@ != (
            #[trigger] self.files()[g]).name@
    }

    /// For every file and configuration, the file's count of distinct
    /// covered lines is the number of its lines that list the configuration.
    pub open spec fn coverage_consistent(&self) -> bool {
        forall|f: int, c: u32|
            0 <= f < self.files().len() ==> hits_of(
                (#[trigger] self.files()[f]).unique_line_hits@,
                c,
            ) == #[trigger] count_covering(self.line_views()[f], c)
    }

    /// In an index that is in order, the record of a line has counted at
    /// least one coverage event for each configuration it lists, and lists
    /// no configuration twice.
    pub proof fn lemma_hit_counts(&self, id: LineId)
        requires
            self.wf(),
            self.knows_line(id),
        ensures
            self.line_view(id)->0.hit_count >= self.line_view(
                id,
            )->0.fuzzer_configuration_ids.len(),
            self.line_view(id)->0.fuzzer_configuration_ids.no_duplicates(),
    {
        assert(self.file_wf(id.0.0 - 1));
        assert(line_wf(self.line_records()[id.0.0 - 1]@[id.1 - 1]@, id.0.0 - 1, id.1 - 1));
    }

    /// In an index that is in order, the record of a line names the file
    /// and the number of the line.
    pub proof fn lemma_line_names_itself(&self, id: LineId)
        requires
            self.wf(),
            self.knows_line(id),
        ensures
            self.line_view(id)->0.file_id == id.0,
            self.line_view(id)->0.line_num == id.1,
    {
        assert(self.file_wf(id.0.0 - 1));
        assert(line_wf(self.line_records()[id.0.0 - 1]@[id.1 - 1]@, id.0.0 - 1, id.1 - 1));
    }

    /// In an index whose counts are consistent, the count that a file keeps
    /// for a configuration is the number of lines of the file that list the
    /// configuration.
    pub proof fn lemma_unique_line_hits(&self, f: int, c: u32)
        requires
            self.coverage_consistent(),
            0 <= f < self.files().len(),
        ensures
            covering(self.line_views()[f], c).finite(),
            hits_of(self.files()[f].unique_line_hits@, c) == covering(
                self.line_views()[f],
                c,
            ).len(),
    {
        lemma_count_covering_is_cardinality(self.line_views()[f], c);
    }

    /// An empty index that allows no directory.
    pub fn new() -> (r: Self)
        ensures
            r.wf(),
            r.coverage_consistent(),
            r.files().len() == 0,
            r.line_records().len() == 0,
            r.allowed_folders().len() == 0,
            r.allowed_extensions().len() == 0,
    {
        SUT {
            files: Vec::new(),
            line_metas: Vec::new(),
            allowed_folders: Vec::new(),
            allowed_extensions: Vec::new(),
        }
    }

    /// Takes the allowed directories and extensions from `config`: the
    /// directories are the source directory followed by the include filter.
    pub fn parse_config(&mut self, config: &TargetConfig)
        ensures
            old(self).wf() ==> final(self).wf(),
            old(self).coverage_consistent() ==> final(self).coverage_consistent(),
            final(self).files() == old(self).files(),
            final(self).line_records() == old(self).line_records(),
            final(self).allowed_folders().len() == config.target_include_filter@.len() + 1,
            final(self).allowed_folders()[0]@ == config.target_source_code_path@,
            forall|k: int|
                0 <= k < config.target_include_filter@.len() ==> (
                #[trigger] final(self).allowed_folders()[k + 1])@
                    == config.target_include_filter@[k]@,
            final(self).allowed_extensions().len() == config.allowed_extensions@.len(),
            forall|k: int|
                0 <= k < config.allowed_extensions@.len() ==> (
                #[trigger] final(self).allowed_extensions()[k])@ == config.allowed_extensions@[k]@,
    {
        let mut folders: Vec<String> = Vec::new();
        folders.push(config.target_source_code_path.clone());
        let mut i: usize = 0;
        while i < config.target_include_filter.len()
            invariant
                i <= config.target_include_filter@.len(),
                folders@.len() == i + 1,
                folders@[0]@ == config.target_source_code_path@,
                forall|k: int|
                    0 <= k < i ==> (#[trigger] folders@[k + 1])@
                        == config.target_include_filter@[k]@,
            decreases config.target_include_filter@.len() - i,
        {
            folders.push(config.target_include_filter[i].clone());
            i = i + 1;
        }
        let mut extensions: Vec<String> = Vec::new();
        let mut i: usize = 0;
        while i < config.allowed_extensions.len()
            invariant
                i <= config.allowed_extensions@.len(),
                extensions@.len() == i,
                forall|k: int|
                    0 <= k < i ==> (#[trigger] extensions@[k])@ == config.allowed_extensions@[k]@,
            decreases config.allowed_extensions@.len() - i,
        {
            extensions.push(config.allowed_extensions[i].clone());
            i = i + 1;
        }
        self.allowed_folders = folders;
        self.allowed_extensions = extensions;
        proof {
            assert(self.files() == old(self).files());
            assert(self.line_records() == old(self).line_records());
            assert(self.line_views() == old(self).line_views());
            if old(self).wf() {
                assert forall|f: int| 0 <= f < self.files().len() implies #[trigger] self.file_wf(
                    f,
                ) by {
                    assert(old(self).file_wf(f));
                }
            }
        }
    }

    /// The id under which `filename` is registered, if it is: the id of the
    /// file with that name.
    pub fn get_file_id(&self, filename: &str) -> (r: Option<FileId>)
        ensures
            r == self.file_id_of(filename@),
            r matches Some(id) ==> 1 <= id.0 <= self.files().len() && self.files()[id.0 - 1].name@
                == filename@,
    {
        let key = filename.to_owned();
        let ghost p = has_name(filename@);
        proof {
            lemma_first_index(self.files(), p, 0);
        }
        let mut f: usize = 0;
        while f < self.files.len()
            invariant
                f <= self.files@.len(),
                key@ == filename@,
                p == has_name(filename@),
                first_index(self.files(), p, 0) == first_index(self.files(), p, f as int),
            decreases self.files@.len() - f,
        {
            if self.files[f].name == key {
                return Some(FileId(f + 1));
            }
            f = f + 1;
        }
        None
    }

    /// Whether a path is admissible.
    pub fn path_admissible(&self, filename: &str, is_dir: bool) -> (r: bool)
        ensures
            r == self.admits_path(filename@, is_dir),
    {
        if is_dir {
            return false;
        }
        if self.allowed_extensions.len() > 0 {
            let extension = match extension_of(filename) {
                Some(e) => e,
                None => String::new(),
            };
            let mut found = false;
            let mut k: usize = 0;
            while k < self.allowed_extensions.len()
                invariant
                    k <= self.allowed_extensions@.len(),
                    extension@ == Self::extension_or_empty(filename@),
                    found == exists|n: int|
                        0 <= n < k && (#[trigger] self.allowed_extensions()[n])@ == extension@,
                decreases self.allowed_extensions@.len() - k,
            {
                if self.allowed_extensions[k] == extension {
                    found = true;
                    proof {
                        assert(self.allowed_extensions()[k as int]@ == extension@);
                    }
                }
                k = k + 1;
            }
            if !found {
                return false;
            }
        }
        match parent_of(filename) {
            Some(dir) => {
                let mut allowed = false;
                let mut k: usize = 0;
                while k < self.allowed_folders.len()
                    invariant
                        k <= self.allowed_folders@.len(),
                        allowed == exists|n: int|
                            0 <= n < k && path_starts_with(
                                dir@,
                                (#[trigger] self.allowed_folders()[n])@,
                            ),
                    decreases self.allowed_folders@.len() - k,
                {
                    if starts_with_path(dir.as_str(), self.allowed_folders[k].as_str()) {
                        allowed = true;
                        proof {
                            assert(path_starts_with(dir@, self.allowed_folders()[k as int]@));
                        }
                    }
                    k = k + 1;
                }
                allowed
            },
            None => false,
        }
    }

    /// Whether a file not seen before would be admitted.
    pub fn is_admissible(&self, filename: &str, is_dir: bool) -> (r: bool)
        ensures
            r == self.admits(filename@, is_dir),
    {
        self.files.len() < usize::MAX && self.path_admissible(filename, is_dir)
    }

    /// Registers a source file of which it has been decided whether its
    /// path is admissible, and returns its id.
    ///
    /// A file that is registered already keeps its id, and nothing changes.
    /// Any other file is registered only if its path is admissible, a file
    /// id is left, and its text has no more lines than can be numbered. It
    /// then gets the next id and one record per line of `content`, each
    /// without any coverage; a file whose text could not be read (`content`
    /// is `None`) is registered without lines.
    pub fn parse_file_decided(
        &mut self,
        filename: &str,
        admissible: bool,
        content: Option<&str>,
    ) -> (r: Option<FileId>)
        requires
            old(self).wf(),
        ensures
            final(self).wf(),
            final(self).allowed_folders() == old(self).allowed_folders(),
            final(self).allowed_extensions() == old(self).allowed_extensions(),
            old(self).coverage_consistent() ==> final(self).coverage_consistent(),
            old(self).file_id_of(filename@) is Some ==> r == old(self).file_id_of(filename@)
                && *final(self) == *old(self),
            old(self).file_id_of(filename@) is None && !(admissible && old(self).takes(content)) ==> r
                is None && *final(self) == *old(self),
            old(self).file_id_of(filename@) is None && admissible && old(self).takes(content)
                ==> final(self).registered(old(self), filename@, Self::text_lines(content), r),
            final(self).file_id_of(filename@) == r,
    {
        let known = self.get_file_id(filename);
        if known.is_some() {
            return known;
        }
        if !admissible || self.files.len() == usize::MAX {
            return None;
        }
        let id = FileId(self.files.len() + 1);
        let mut meta = FileMeta::new(filename);
        let mut records: Vec<LineMeta> = Vec::new();
        let ghost text = Self::text_lines(content);
        match content {
            Some(source) => {
                let chars = to_chars(source);
                let ranges = line_ranges(chars.as_slice());
                if ranges.len() > 0xffff_ffff {
                    return None;
                }
                let mut j: usize = 0;
                while j < ranges.len()
                    invariant
                        j <= ranges@.len(),
                        ranges@.len() <= u32::MAX,
                        ranges_within(ranges@, chars@.len()),
                        pieces(chars@, ranges@) == text,
                        records@.len() == j,
                        meta.lines@.len() == j,
                        meta.name@ == filename@,
                        meta.unique_line_hits@ == Map::<u32, u32>::empty(),
                        forall|n: int|
                            0 <= n < j ==> (#[trigger] records@[n])@ == (LineMetaView {
                                file_id: id,
                                line_num: (n + 1) as u32,
                                hit_count: 0,
                                fuzzer_configuration_ids: Seq::<u32>::empty(),
                                is_comment: is_comment_line(text[n]),
                            }),
                        forall|n: int|
                            0 <= n < j ==> (#[trigger] meta.lines@[n]) == LineId(
                                id,
                                (n + 1) as u32,
                            ),
                    decreases ranges@.len() - j,
                {
                    let range = ranges[j];
                    let line = slice_of(chars.as_slice(), range.0, range.1);
                    proof {
                        assert(pieces(chars@, ranges@)[j as int] == line@);
                    }
                    let line_num: u32 = (j + 1) as u32;
                    records.push(
                        LineMeta {
                            file_id: id,
                            line_num,
                            hit_count: 0,
                            fuzzer_configuration_ids: Vec::new(),
                            is_comment: comment_line(line),
                        },
                    );
                    meta.lines.push(LineId(id, line_num));
                    j = j + 1;
                }
            },
            None => {},
        }
        let ghost before = *self;
        self.files.push(meta);
        self.line_metas.push(records);
        proof {
            let f = before.files().len() as int;
            let p = has_name(filename@);
            lemma_first_index(before.files(), p, 0);
            lemma_first_index(self.files(), p, 0);
            assert(p(self.files()[f]));
            assert forall|g: int| 0 <= g < f implies !p(#[trigger] self.files()[g]) by {
                assert(self.files()[g] == before.files()[g]);
            }
            assert(self.files().drop_last() == before.files());
            assert(self.line_records().drop_last() == before.line_records());
            assert(views_of(self.line_records().last()@) == Seq::new(
                text.len(),
                |j: int|
                    LineMetaView {
                        file_id: id,
                        line_num: (j + 1) as u32,
                        hit_count: 0,
                        fuzzer_configuration_ids: Seq::<u32>::empty(),
                        is_comment: is_comment_line(text[j]),
                    },
            ));
            assert(self.files().last().lines@ == Seq::new(
                text.len(),
                |j: int| LineId(id, (j + 1) as u32),
            ));
            assert forall|g: int| 0 <= g < self.files().len() implies #[trigger] self.file_wf(
                g,
            ) by {
                if g < f {
                    assert(before.file_wf(g));
                    assert(self.files()[g] == before.files()[g]);
                    assert(self.line_records()[g] == before.line_records()[g]);
                } else {
                    let recs = self.line_records()[g]@;
                    assert forall|j: int| 0 <= j < recs.len() implies line_wf(
                        (#[trigger] recs[j])@,
                        g,
                        j,
                    ) by {
                        assert(recs[j]@ == views_of(recs)[j]);
                    }
                }
            }
            assert forall|g: int, h: int| 0 <= g < h < self.files().len() implies (
            #[trigger] self.files()[g]).name@ != (#[trigger] self.files()[h]).name@ by {
                if h < f {
                    assert(self.files()[g] == before.files()[g]);
                    assert(self.files()[h] == before.files()[h]);
                } else {
                    assert(self.files()[g] == before.files()[g]);
                }
            }
            assert(self.files()[f].name@ == filename@);
            if before.coverage_consistent() {
                assert forall|g: int, c: u32| 0 <= g < self.files().len() implies hits_of(
                    (#[trigger] self.files()[g]).unique_line_hits@,
                    c,
                ) == #[trigger] count_covering(self.line_views()[g], c) by {
                    if g < f {
                        assert(self.files()[g] == before.files()[g]);
                        assert(self.line_records()[g] == before.line_records()[g]);
                        assert(self.line_views()[g] == before.line_views()[g]);
                    } else {
                        lemma_count_covering_fresh(self.line_views()[g], c);
                    }
                }
            }
        }
        Some(id)
    }

    /// Registers a source file and returns its id.
    ///
    /// A file that is registered already keeps its id, and nothing changes.
    /// Any other file is registered only if its path is admissible, a file
    /// id is left, and its text has no more lines than can be numbered. It
    /// then gets the next id and one record per line of `content`, each
    /// without any coverage; a file whose text could not be read (`content`
    /// is `None`) is registered without lines.
    pub fn parse_file(&mut self, filename: &str, is_dir: bool, content: Option<&str>) -> (r:
        Option<FileId>)
        requires
            old(self).wf(),
        ensures
            final(self).wf(),
            final(self).allowed_folders() == old(self).allowed_folders(),
            final(self).allowed_extensions() == old(self).allowed_extensions(),
            old(self).coverage_consistent() ==> final(self).coverage_consistent(),
            old(self).file_id_of(filename@) is Some ==> r == old(self).file_id_of(filename@)
                && *final(self) == *old(self),
            old(self).file_id_of(filename@) is None && !(old(self).admits_path(filename@, is_dir)
                && old(self).takes(content)) ==> r is None && *final(self) == *old(self),
            old(self).file_id_of(filename@) is None && old(self).admits_path(filename@, is_dir)
                && old(self).takes(content) ==> final(self).registered(
                old(self),
                filename@,
                Self::text_lines(content),
                r,
            ),
            final(self).file_id_of(filename@) == r,
    {
        let admissible = self.path_admissible(filename, is_dir);
        self.parse_file_decided(filename, admissible, content)
    }

    /// What a reader of source files shows for a file: its text, or a fixed
    /// notice where the text could not be read.
    pub fn read_file_content(&self, content: Option<String>) -> (r: String)
        ensures
            match content {
                Some(text) => r@ == text@,
                None => r@ == "File content unavailable"@,
            },
    {
        match content {
            Some(text) => text,
            None => "File content unavailable".to_owned(),
        }
    }

    /// The names of all registered files, in the order of their ids.
    pub fn get_all_files(&self) -> (r: Vec<String>)
        ensures
            r@.len() == self.files().len(),
            forall|f: int| 0 <= f < r@.len() ==> (#[trigger] r@[f])@ == self.files()[f].name@,
    {
        let mut r: Vec<String> = Vec::new();
        let mut f: usize = 0;
        while f < self.files.len()
            invariant
                f <= self.files@.len(),
                r@.len() == f,
                forall|g: int| 0 <= g < f ==> (#[trigger] r@[g])@ == self.files@[g].name@,
            decreases self.files@.len() - f,
        {
            r.push(self.files[f].name.clone());
            f = f + 1;
        }
        r
    }

    /// The records of all lines of a file, in line order; none for a file
    /// that is not registered.
    pub fn get_all_lines(&self, file_id: FileId) -> (r: Vec<&LineMeta>)
        ensures
            1 <= file_id.0 <= self.line_records().len() ==> r@.len()
                == self.line_records()[file_id.0 - 1]@.len() && forall|j: int|
                0 <= j < r@.len() ==> *(#[trigger] r@[j]) == self.line_records()[file_id.0 - 1]@[j],
            !(1 <= file_id.0 <= self.line_records().len()) ==> r@.len() == 0,
    {
        let mut r: Vec<&LineMeta> = Vec::new();
        if file_id.0 == 0 || file_id.0 > self.line_metas.len() {
            return r;
        }
        let records = &self.line_metas[file_id.0 - 1];
        let mut j: usize = 0;
        while j < records.len()
            invariant
                j <= records@.len(),
                r@.len() == j,
                forall|n: int| 0 <= n < j ==> *(#[trigger] r@[n]) == records@[n],
            decreases records@.len() - j,
        {
            r.push(&records[j]);
            j = j + 1;
        }
        r
    }

    /// The record of a line, if the index has one.
    pub fn get_line_meta(&self, line_id: LineId) -> (r: Option<&LineMeta>)
        ensures
            match r {
                Some(m) => self.knows_line(line_id) && *m == self.line_records()[line_id.0.0
                    - 1]@[line_id.1 - 1] && self.line_view(line_id) == Some(m@),
                None => !self.knows_line(line_id),
            },
    {
        let f = line_id.0.0;
        if f == 0 || f > self.line_metas.len() {
            return None;
        }
        let records = &self.line_metas[f - 1];
        let n = line_id.1 as usize;
        if n == 0 || n > records.len() {
            return None;
        }
        Some(&records[n - 1])
    }

    /// The record of a line, to be changed in place, if the index has one.
    /// The index is left with whatever the caller writes into the record;
    /// keeping it in order is up to the caller.
    pub fn get_mut_line_meta(&mut self, line_id: LineId) -> (r: Option<&mut LineMeta>)
        ensures
            match r {
                Some(m) => {
                    &&& old(self).knows_line(line_id)
                    &&& *m == old(self).line_records()[line_id.0.0 - 1]@[line_id.1 - 1]
                    &&& final(self).files() == old(self).files()
                    &&& final(self).allowed_folders() == old(self).allowed_folders()
                    &&& final(self).allowed_extensions() == old(self).allowed_extensions()
                    &&& final(self).line_records().len() == old(self).line_records().len()
                    &&& forall|f: int|
                        0 <= f < old(self).line_records().len() && f != line_id.0.0 - 1 ==> (
                        #[trigger] final(self).line_records()[f]) == old(self).line_records()[f]
                    &&& final(self).line_records()[line_id.0.0 - 1]@ == old(
                        self,
                    ).line_records()[line_id.0.0 - 1]@.update(line_id.1 - 1, *final(m))
                },
                None => !old(self).knows_line(line_id) && *final(self) == *old(self),
            },
    {
        let f = line_id.0.0;
        if f == 0 || f > self.line_metas.len() {
            return None;
        }
        let n = line_id.1 as usize;
        if n == 0 || n > self.line_metas[f - 1].len() {
            return None;
        }
        Some(&mut self.line_metas[f - 1][n - 1])
    }

    /// Records one coverage event of configuration `fuzzer_configuration_id`
    /// on a line.
    ///
    /// The line's hit count goes up by one, and the configuration joins the
    /// line's list if it is not in it. The result is 1 if the configuration
    /// was not in the list, and the new hit count otherwise. For a line that
    /// the index does not know nothing changes and the result is 0.
    pub fn set_line_covered(&mut self, line_id: LineId, fuzzer_configuration_id: u32) -> (r: u32)
        requires
            old(self).wf(),
            old(self).line_view(line_id) matches Some(m) ==> m.hit_count < u32::MAX,
        ensures
            final(self).wf(),
            final(self).files() == old(self).files(),
            final(self).allowed_folders() == old(self).allowed_folders(),
            final(self).allowed_extensions() == old(self).allowed_extensions(),
            match old(self).line_view(line_id) {
                None => r == 0 && *final(self) == *old(self),
                Some(m) => {
                    &&& final(self).line_views() == old(self).line_views().update(
                        line_id.0.0 - 1,
                        old(self).line_views()[line_id.0.0 - 1].update(
                            line_id.1 - 1,
                            covered_by(m, fuzzer_configuration_id),
                        ),
                    )
                    &&& r == if m.fuzzer_configuration_ids.contains(fuzzer_configuration_id) {
                        (m.hit_count + 1) as u32
                    } else {
                        1u32
                    }
                    &&& (r == 1 <==> !m.fuzzer_configuration_ids.contains(fuzzer_configuration_id))
                },
            },
    {
        let f = line_id.0.0;
        if f == 0 || f > self.line_metas.len() {
            return 0;
        }
        let n = line_id.1 as usize;
        if n == 0 || n > self.line_metas[f - 1].len() {
            return 0;
        }
        let ghost before = *self;
        let ghost m = before.line_records()[f - 1]@[n - 1]@;
        proof {
            assert(before.file_wf(f - 1));
            assert(line_wf(before.line_records()[f - 1]@[n - 1]@, f - 1, n - 1));
        }
        let seen = contains_u32(
            &self.line_metas[f - 1][n - 1].fuzzer_configuration_ids,
            fuzzer_configuration_id,
        );
        let count: u32 = self.line_metas[f - 1][n - 1].hit_count + 1;
        self.line_metas[f - 1][n - 1].hit_count = count;
        if !seen {
            self.line_metas[f - 1][n - 1].fuzzer_configuration_ids.push(fuzzer_configuration_id);
        }
        proof {
            let new_m = self.line_records()[f - 1]@[n - 1]@;
            assert(new_m == covered_by(m, fuzzer_configuration_id));
            lemma_covered_by_once(m, fuzzer_configuration_id);
            assert(self.line_views() =~= before.line_views().update(
                f - 1,
                before.line_views()[f - 1].update(n - 1, covered_by(m, fuzzer_configuration_id)),
            )) by {
                assert forall|g: int| 0 <= g < self.line_views().len() implies (
                #[trigger] self.line_views()[g]) =~= before.line_views().update(
                    f - 1,
                    before.line_views()[f - 1].update(
                        n - 1,
                        covered_by(m, fuzzer_configuration_id),
                    ),
                )[g] by {
                    if g != f - 1 {
                        assert(self.line_records()[g] == before.line_records()[g]);
                    }
                }
            }
            assert forall|g: int| 0 <= g < self.files().len() implies #[trigger] self.file_wf(
                g,
            ) by {
                assert(before.file_wf(g));
                if g != f - 1 {
                    assert(self.line_records()[g] == before.line_records()[g]);
                } else {
                    let recs = self.line_records()[g]@;
                    let old_recs = before.line_records()[g]@;
                    assert forall|j: int| 0 <= j < recs.len() implies line_wf(
                        (#[trigger] recs[j])@,
                        g,
                        j,
                    ) by {
                        if j != n - 1 {
                            assert(recs[j] == old_recs[j]);
                            assert(line_wf(old_recs[j]@, g, j));
                        }
                    }
                }
            }
        }
        if seen {
            count
        } else {
            1
        }
    }

    /// The record of a file, if it is registered.
    pub fn get_file_meta(&self, file_id: &FileId) -> (r: Option<&FileMeta>)
        ensures
            match r {
                Some(m) => 1 <= file_id.0 <= self.files().len() && *m == self.files()[file_id.0
                    - 1],
                None => !(1 <= file_id.0 <= self.files().len()),
            },
    {
        if file_id.0 == 0 || file_id.0 > self.files.len() {
            None
        } else {
            Some(&self.files[file_id.0 - 1])
        }
    }

    /// Counts one more distinct line of a file as covered by a
    /// configuration.
    pub fn increment_unique_line_hits(&mut self, file_id: &FileId, fuzzer_configuration_id: u32)
        requires
            old(self).wf(),
            1 <= file_id.0 <= old(self).files().len(),
            hits_of(
                old(self).files()[file_id.0 - 1].unique_line_hits@,
                fuzzer_configuration_id,
            ) < u32::MAX,
        ensures
            final(self).wf(),
            final(self).line_records() == old(self).line_records(),
            final(self).allowed_folders() == old(self).allowed_folders(),
            final(self).allowed_extensions() == old(self).allowed_extensions(),
            final(self).files().len() == old(self).files().len(),
            forall|g: int|
                0 <= g < old(self).files().len() && g != file_id.0 - 1 ==> (
                #[trigger] final(self).files()[g]) == old(self).files()[g],
            final(self).files()[file_id.0 - 1].name == old(self).files()[file_id.0 - 1].name,
            final(self).files()[file_id.0 - 1].lines == old(self).files()[file_id.0 - 1].lines,
            final(self).files()[file_id.0 - 1].unique_line_hits@ == old(self).files()[file_id.0
                - 1].unique_line_hits@.insert(
                fuzzer_configuration_id,
                (hits_of(
                    old(self).files()[file_id.0 - 1].unique_line_hits@,
                    fuzzer_configuration_id,
                ) + 1) as u32,
            ),
    {
        broadcast use vstd::std_specs::hash::group_hash_axioms;

        let f = file_id.0 - 1;
        let ghost before = *self;
        let current: u32 = match self.files[f].unique_line_hits.get(&fuzzer_configuration_id) {
            Some(n) => *n,
            None => 0,
        };
        self.files[f].unique_line_hits.insert(fuzzer_configuration_id, current + 1);
        proof {
            assert forall|g: int| 0 <= g < self.files().len() implies #[trigger] self.file_wf(
                g,
            ) by {
                assert(before.file_wf(g));
            }
            assert forall|g: int, h: int| 0 <= g < h < self.files().len() implies (
            #[trigger] self.files()[g]).name@ != (#[trigger] self.files()[h]).name@ by {
                assert(self.files()[g].name == before.files()[g].name);
                assert(self.files()[h].name == before.files()[h].name);
            }
        }
    }

    /// The records of all files, in the order of their ids.
    pub fn get_all_file_meta(&self) -> (r: &Vec<FileMeta>)
        ensures
            r@ == self.files(),
    {
        &self.files
    }

    /// The records of all lines: for the file with id `k`, at index
    /// `k - 1`, its lines in order.
    pub fn get_file_id_line_num_line_meta_map(&self) -> (r: &Vec<Vec<LineMeta>>)
        ensures
            r@ == self.line_records(),
    {
        &self.line_metas
    }
}

} // verus!
