//! The inputs of the fuzzers: what is known of each, the trace of each, and
//! which inputs descend from which initial seeds.
//!
//! Inputs get dense ids in the order in which they are registered, seeds
//! and derived inputs alike. The lineage index is built once, after the
//! last input has been registered.

use crate::config::FuzzerConfig;
use crate::custom_types::InputId;
use crate::custom_types::InputMeta;
use crate::custom_types::LineId;
use crate::input_name::is_seed_name;
use crate::input_name::names_seed;
use crate::input_name::parse_stem;
use crate::input_name::stem_fields;
use crate::input_name::NameError;
use crate::input_name::StemView;
use crate::paths::file_stem_of;
use crate::paths::path_file_stem;
use crate::search::first_index;
use crate::search::last_index;
use crate::search::lemma_first_index;
use crate::search::lemma_last_index;
use crate::search::lemma_last_index_push;
use crate::sut_database::count_covering;
use crate::sut_database::covered_by;
use crate::sut_database::hits_of;
use crate::sut_database::lemma_count_covering_bound;
use crate::sut_database::lemma_count_covering_update;
use crate::sut_database::lemma_covered_by_lists;
use crate::sut_database::model_line;
use crate::sut_database::record_line;
use crate::sut_database::CoverageModel;
use crate::sut_database::SUT;
use crate::text::to_chars;
use crate::trace_map::Trace;
use std::collections::HashMap;
use vstd::prelude::*;

verus! {

/// Why an input could not be registered.
#[derive(Clone, Copy, Debug, PartialEq, Eq, Structural)]
pub enum InputError {
    /// The path of the file has no file name.
    NoFileName,
    /// The name of the file cannot be read.
    Name(NameError),
    /// The hit count of a line that the input covers cannot go higher.
    HitCountOverflow,
    /// No id is left for one more input.
    TooManyInputs,
}

/// The seed with id `seed_fuzz_input_id` of a configuration and the inputs
/// that descend from it.
#[derive(Clone, Debug)]
pub struct ChildrenEntry {
    pub fuzzer_configuration: u32,
    pub seed_fuzz_input_id: u32,
    pub children: Vec<InputId>,
}

/// The property of an input to belong to configuration `c` and to have the
/// fuzzer-local id `f`.
pub open spec fn is_input(c: u32, f: u32) -> spec_fn(InputMeta) -> bool {
    |m: InputMeta| m.fuzzer_configuration == c && m.fuzz_input_id == f
}

/// The property of a configuration to have the id `id`.
pub open spec fn has_id(id: u32) -> spec_fn(FuzzerConfig) -> bool {
    |cfg: FuzzerConfig| cfg.fuzzer_configuration_id == id
}

/// The property of an entry of the lineage index to be that of the seed `f`
/// of configuration `c`.
pub open spec fn has_key(c: u32, f: u32) -> spec_fn(ChildrenEntry) -> bool {
    |e: ChildrenEntry| e.fuzzer_configuration == c && e.seed_fuzz_input_id == f
}

/// No two entries are for the same seed of the same configuration.
pub open spec fn keys_distinct(index: Seq<ChildrenEntry>) -> bool {
    forall|i: int, j: int|
        0 <= i < j < index.len() ==> !((#[trigger] index[i]).fuzzer_configuration == (
        #[trigger] index[j]).fuzzer_configuration && index[i].seed_fuzz_input_id
            == index[j].seed_fuzz_input_id)
}

/// The line has a record that marks it as a comment.
pub open spec fn is_comment_in(m: CoverageModel, l: LineId) -> bool {
    match model_line(m, l) {
        Some(v) => v.is_comment,
        None => false,
    }
}

/// The coverage recorded so far and the lines counted as covered.
pub struct Recording {
    pub model: CoverageModel,
    pub covered: Seq<LineId>,
}

/// Takes one line of a trace into account: a line marked as a comment is
/// passed over; any other line is recorded and counted as covered.
pub open spec fn record_step(r: Recording, l: LineId, c: u32) -> Recording {
    if is_comment_in(r.model, l) {
        r
    } else {
        Recording { model: record_line(r.model, l, c), covered: r.covered.push(l) }
    }
}

/// Takes the lines from index `k` on into account, in order.
pub open spec fn record_from(r: Recording, lines: Seq<LineId>, c: u32, k: int) -> Recording
    decreases lines.len() - k,
{
    if k < 0 || k >= lines.len() {
        r
    } else {
        record_from(record_step(r, lines[k], c), lines, c, k + 1)
    }
}

/// Every line of `covered` is among the first `k` of `lines`.
pub open spec fn drawn_from(covered: Seq<LineId>, lines: Seq<LineId>, k: int) -> bool {
    forall|a: int|
        0 <= a < covered.len() ==> exists|j: int|
            0 <= j < k && j < lines.len() && #[trigger] lines[j] == #[trigger] covered[a]
}

/// The lines counted as covered are lines of the trace, and none is counted
/// twice where the trace lists none twice.
pub proof fn lemma_recorded_once(r: Recording, lines: Seq<LineId>, c: u32, k: int)
    requires
        0 <= k <= lines.len(),
        lines.no_duplicates(),
        r.covered.no_duplicates(),
        drawn_from(r.covered, lines, k),
    ensures
        record_from(r, lines, c, k).covered.no_duplicates(),
        drawn_from(record_from(r, lines, c, k).covered, lines, lines.len() as int),
    decreases lines.len() - k,
{
    if k < lines.len() {
        let next = record_step(r, lines[k], c);
        if !is_comment_in(r.model, lines[k]) {
            assert forall|a: int, b: int|
                0 <= a < next.covered.len() && 0 <= b < next.covered.len() && a != b implies next.covered[a]
                != next.covered[b] by {
                if a < r.covered.len() && b < r.covered.len() {
                } else if a < r.covered.len() {
                    let j = choose|j: int|
                        0 <= j < k && j < lines.len() && #[trigger] lines[j] == r.covered[a];
                    assert(lines[j] != lines[k]);
                } else {
                    let j = choose|j: int|
                        0 <= j < k && j < lines.len() && #[trigger] lines[j] == r.covered[b];
                    assert(lines[j] != lines[k]);
                }
            }
            assert forall|a: int| 0 <= a < next.covered.len() implies exists|j: int|
                0 <= j < k + 1 && j < lines.len() && #[trigger] lines[j]
                    == #[trigger] next.covered[a] by {
                if a < r.covered.len() {
                    let j = choose|j: int|
                        0 <= j < k && j < lines.len() && #[trigger] lines[j] == r.covered[a];
                    assert(lines[j] == next.covered[a]);
                } else {
                    assert(lines[k] == next.covered[a]);
                }
            }
        } else {
            assert forall|a: int| 0 <= a < next.covered.len() implies exists|j: int|
                0 <= j < k + 1 && j < lines.len() && #[trigger] lines[j]
                    == #[trigger] next.covered[a] by {
                let j = choose|j: int|
                    0 <= j < k && j < lines.len() && #[trigger] lines[j] == r.covered[a];
                assert(lines[j] == next.covered[a]);
            }
        }
        lemma_recorded_once(next, lines, c, k + 1);
    } else {
        assert forall|a: int| 0 <= a < r.covered.len() implies exists|j: int|
            0 <= j < lines.len() && j < lines.len() && #[trigger] lines[j]
                == #[trigger] r.covered[a] by {
            let j = choose|j: int|
                0 <= j < k && j < lines.len() && #[trigger] lines[j] == r.covered[a];
            assert(lines[j] == r.covered[a]);
        }
    }
}

/// Some line that would be recorded has a hit count that cannot go higher.
pub open spec fn counters_full(m: CoverageModel, lines: Seq<LineId>) -> bool {
    exists|k: int|
        0 <= k < lines.len() && !is_comment_in(m, #[trigger] lines[k]) && (match model_line(
            m,
            lines[k],
        ) {
            Some(v) => v.hit_count == u32::MAX,
            None => false,
        })
}

/// The inputs among the first `n` that are seeds (`seed` true) or derived
/// (`seed` false), of configuration `c` if one is given, in order.
pub open spec fn select(inputs: Seq<InputMeta>, seed: bool, c: Option<u32>, n: int) -> Seq<
    InputId,
>
    decreases n,
{
    if n <= 0 {
        Seq::empty()
    } else {
        let m = inputs[n - 1];
        let rest = select(inputs, seed, c, n - 1);
        if m.is_initial_seed == seed && (c is None || c == Some(m.fuzzer_configuration)) {
            rest.push(InputId(n as usize))
        } else {
            rest
        }
    }
}

/// The run-time bounds after one more derived input executed at `at`.
pub open spec fn widen(bounds: Option<(i64, i64)>, at: i64) -> Option<(i64, i64)> {
    match bounds {
        None => Some((at, at)),
        Some((lo, hi)) => Some(
            (
                if at < lo {
                    at
                } else {
                    lo
                },
                if at > hi {
                    at
                } else {
                    hi
                },
            ),
        ),
    }
}

/// The least and the greatest time of execution among the derived inputs
/// of configuration `c` among the first `n` inputs.
pub open spec fn run_times(inputs: Seq<InputMeta>, c: u32, n: int) -> Option<(i64, i64)>
    decreases n,
{
    if n <= 0 {
        None
    } else {
        let m = inputs[n - 1];
        if !m.is_initial_seed && m.fuzzer_configuration == c {
            widen(run_times(inputs, c, n - 1), m.executed_on)
        } else {
            run_times(inputs, c, n - 1)
        }
    }
}

/// The record `m` is that of the input with id `id`, registered for
/// configuration `c` from a file with the stem `stem`.
pub open spec fn describes(
    m: InputMeta,
    id: InputId,
    info: StemView,
    seed: bool,
    c: u32,
    stem: Seq<char>,
    covered: Seq<LineId>,
) -> bool {
    &&& m.id == id
    &&& m.fuzz_input_id == info.fuzz_input_id
    &&& m.total_mutations_required_to_generate == info.total_mutations
    &&& m.execution_time == info.execution_time
    &&& m.fuzzer_coverage == info.fuzzer_coverage
    &&& m.executed_on == info.executed_on
    &&& m.source_line_coverage@ == covered
    &&& m.parents@ == info.parents
    &&& m.is_initial_seed == seed
    &&& m.fuzzer_configuration == c
    &&& m.file_name_stem@ == stem
}

/// The key under which the input `f` of configuration `c` is looked up.
pub open spec fn link_key(c: u32, f: u32) -> u64 {
    (c * 0x1_0000_0000 + f) as u64
}

/// The inputs of the fuzzers.
#[derive(Clone)]
pub struct InputsDatabase {
    fuzzer_configurations: Vec<FuzzerConfig>,
    inputs: Vec<InputMeta>,
    traces: Vec<Trace>,
    children: Vec<ChildrenEntry>,
    links: HashMap<u64, usize>,
}

impl Default for InputsDatabase {
    fn default() -> (r: Self)
        ensures
            r.wf(),
            r.configurations().len() == 0,
            r.inputs().len() == 0,
            r.traces().len() == 0,
            r.children_index().len() == 0,
    {
        Self::new()
    }
}

impl InputsDatabase {
    /// The fuzzer configurations, in the order in which their ids were first
    /// seen.
    pub closed spec fn configurations(&self) -> Seq<FuzzerConfig> {
        self.fuzzer_configurations@
    }

    /// The records of the inputs, in the order of their ids: the input with
    /// id `k` stands at index `k - 1`.
    pub closed spec fn inputs(&self) -> Seq<InputMeta> {
        self.inputs@
    }

    /// The traces of the inputs, in the order of their ids.
    pub closed spec fn traces(&self) -> Seq<Trace> {
        self.traces@
    }

    /// The lineage index.
    pub closed spec fn children_index(&self) -> Seq<ChildrenEntry> {
        self.children@
    }

    /// For each name that the fuzzers use, the index of the last input
    /// registered under it.
    pub closed spec fn links(&self) -> Map<u64, usize> {
        self.links@
    }

    /// The links lead to the last input registered under each name.
    pub open spec fn links_wf(&self) -> bool {
        forall|c: u32, f: u32|
            #![trigger link_key(c, f)]
            match last_index(self.inputs(), is_input(c, f), self.inputs().len() as int) {
                Some(i) => self.links().contains_key(link_key(c, f)) && self.links()[link_key(
                    c,
                    f,
                )] == i,
                None => !self.links().contains_key(link_key(c, f)),
            }
    }

    /// The database is in order: every input has its trace, carries its own
    /// id and lists no covered line twice, no two configurations share an
    /// id, and no two entries of the lineage index are for the same seed.
    pub open spec fn wf(&self) -> bool {
        &&& self.links_wf()
        &&& self.inputs().len() <= usize::MAX
        &&& self.inputs().len() == self.traces().len()
        &&& forall|k: int|
            0 <= k < self.inputs().len() ==> (#[trigger] self.inputs()[k]).id == InputId(
                (k + 1) as usize,
            )
        &&& forall|k: int|
            0 <= k < self.inputs().len() ==> (
            #[trigger] self.inputs()[k]).source_line_coverage@.no_duplicates()
        &&& forall|i: int, j: int|
            0 <= i < j < self.configurations().len() ==> (
            #[trigger] self.configurations()[i]).fuzzer_configuration_id != (
            #[trigger] self.configurations()[j]).fuzzer_configuration_id
        &&& keys_distinct(self.children_index())
    }

    /// An input with id `id` is registered.
    pub open spec fn knows(&self, id: InputId) -> bool {
        1 <= id.0 <= self.inputs().len()
    }

    /// `id` is the id of an initial seed.
    pub open spec fn is_seed(&self, id: InputId) -> bool {
        self.knows(id) && self.inputs()[id.0 - 1].is_initial_seed
    }

    /// `id` is the id of a derived input.
    pub open spec fn is_derived(&self, id: InputId) -> bool {
        self.knows(id) && !self.inputs()[id.0 - 1].is_initial_seed
    }

    /// The input of configuration `c` that the fuzzer calls `f`: the last
    /// one registered under that name.
    pub open spec fn resolve(&self, c: u32, f: u32) -> Option<InputId> {
        match last_index(self.inputs(), is_input(c, f), self.inputs().len() as int) {
            Some(i) => Some(InputId((i + 1) as usize)),
            None => None,
        }
    }

    /// Index of the configuration with id `id`.
    pub open spec fn configuration_index(&self, id: u32) -> Option<int> {
        first_index(self.configurations(), has_id(id), 0)
    }

    /// The outcome of registering an input whose file has the stem `stem`:
    /// for a failure, nothing has changed; for a success, the input has the
    /// next id, its record says what the stem says, its trace is stored, and
    /// the coverage of its trace is recorded line by line.
    pub open spec fn stem_added(
        &self,
        before: &InputsDatabase,
        sut: &SUT,
        sut_before: &SUT,
        stem: Seq<char>,
        trace: Trace,
        c: u32,
        kind: Option<bool>,
        r: Result<InputId, InputError>,
    ) -> bool {
        match Self::stem_refusal(before, sut_before, stem, trace) {
            Some(e) => r matches Err(why) && why == e && *self == *before && *sut == *sut_before,
            None => {
                let info = stem_fields(stem)->Ok_0;
                let id = InputId((before.inputs().len() + 1) as usize);
                let recording = record_from(
                    Recording { model: sut_before.coverage_model(), covered: Seq::empty() },
                    trace@.lines,
                    c,
                    0,
                );
                let seed = match kind {
                    Some(seed) => seed,
                    None => names_seed(stem),
                };
                &&& r matches Ok(given) && given == id
                &&& self.inputs().len() == before.inputs().len() + 1
                &&& self.inputs().drop_last() == before.inputs()
                &&& describes(self.inputs().last(), id, info, seed, c, stem, recording.covered)
                &&& self.traces() == before.traces().push(trace)
                &&& self.configurations() == before.configurations()
                &&& self.children_index() == before.children_index()
                &&& sut.same_files(sut_before)
                &&& sut.coverage_model() == recording.model
            },
        }
    }

    /// Why an input whose file has the stem `stem` is not registered, if it
    /// is not.
    pub open spec fn stem_refusal(
        before: &InputsDatabase,
        sut_before: &SUT,
        stem: Seq<char>,
        trace: Trace,
    ) -> Option<InputError> {
        match stem_fields(stem) {
            Err(e) => Some(InputError::Name(e)),
            Ok(info) => if before.inputs().len() >= usize::MAX {
                Some(InputError::TooManyInputs)
            } else if counters_full(sut_before.coverage_model(), trace@.lines) {
                Some(InputError::HitCountOverflow)
            } else {
                None
            },
        }
    }

    /// The outcome of registering the input whose trace is in the file
    /// `file_name`: a path without file name is refused and nothing changes;
    /// any other is registered by its stem.
    pub open spec fn added(
        &self,
        before: &InputsDatabase,
        sut: &SUT,
        sut_before: &SUT,
        file_name: Seq<char>,
        trace: Trace,
        c: u32,
        kind: Option<bool>,
        r: Result<InputId, InputError>,
    ) -> bool {
        match path_file_stem(file_name) {
            None => r matches Err(why) && why == InputError::NoFileName && *self == *before && *sut
                == *sut_before,
            Some(stem) => self.stem_added(before, sut, sut_before, stem, trace, c, kind, r),
        }
    }

    /// A database without configurations and inputs.
    pub fn new() -> (r: Self)
        ensures
            r.wf(),
            r.configurations().len() == 0,
            r.inputs().len() == 0,
            r.traces().len() == 0,
            r.children_index().len() == 0,
    {
        InputsDatabase {
            fuzzer_configurations: Vec::new(),
            inputs: Vec::new(),
            traces: Vec::new(),
            children: Vec::new(),
            links: HashMap::new(),
        }
    }

    /// Registers a fuzzer configuration under its id. A configuration
    /// registered earlier under the same id is replaced.
    pub fn add_fuzzer_configuration(&mut self, fuzzer_config: &FuzzerConfig)
        requires
            old(self).wf(),
        ensures
            final(self).wf(),
            final(self).inputs() == old(self).inputs(),
            final(self).traces() == old(self).traces(),
            final(self).children_index() == old(self).children_index(),
            final(self).links() == old(self).links(),
            match old(self).configuration_index(fuzzer_config.fuzzer_configuration_id) {
                Some(i) => final(self).configurations() == old(self).configurations().update(
                    i,
                    *fuzzer_config,
                ),
                None => final(self).configurations() == old(self).configurations().push(
                    *fuzzer_config,
                ),
            },
            final(self).configuration_index(fuzzer_config.fuzzer_configuration_id) is Some,
    {
        let id = fuzzer_config.fuzzer_configuration_id;
        let ghost before = *self;
        proof {
            lemma_first_index(before.configurations(), has_id(id), 0);
        }
        let mut i: usize = 0;
        while i < self.fuzzer_configurations.len()
            invariant
                *self == before,
                before == *old(self),
                before.wf(),
                id == fuzzer_config.fuzzer_configuration_id,
                i <= self.fuzzer_configurations@.len(),
                first_index(self.configurations(), has_id(id), 0) == first_index(
                    self.configurations(),
                    has_id(id),
                    i as int,
                ),
            decreases self.fuzzer_configurations@.len() - i,
        {
            if self.fuzzer_configurations[i].fuzzer_configuration_id == id {
                self.fuzzer_configurations[i] = fuzzer_config.clone();
                proof {
                    assert(self.configurations() == before.configurations().update(
                        i as int,
                        *fuzzer_config,
                    ));
                    lemma_first_index(self.configurations(), has_id(id), 0);
                    assert(has_id(id)(self.configurations()[i as int]));
                    assert(self.inputs() == before.inputs());
                    assert(self.traces() == before.traces());
                    assert(self.children_index() == before.children_index());
                    assert(self.links() == before.links());
                    assert(self.links_wf());
                    assert(forall|k: int|
                        0 <= k < self.inputs().len() ==> (#[trigger] self.inputs()[k]).id
                            == InputId((k + 1) as usize));
                    assert forall|a: int, b: int|
                        0 <= a < b < self.configurations().len() implies (
                    #[trigger] self.configurations()[a]).fuzzer_configuration_id != (
                    #[trigger] self.configurations()[b]).fuzzer_configuration_id by {
                        assert(self.configurations()[a].fuzzer_configuration_id
                            == before.configurations()[a].fuzzer_configuration_id);
                        assert(self.configurations()[b].fuzzer_configuration_id
                            == before.configurations()[b].fuzzer_configuration_id);
                    }
                }
                return ;
            }
            i = i + 1;
        }
        self.fuzzer_configurations.push(fuzzer_config.clone());
        proof {
            assert(before.wf());
            assert(self.inputs() == before.inputs());
            assert(self.traces() == before.traces());
            assert(self.children_index() == before.children_index());
            assert(self.links() == before.links());
            assert(self.links_wf());
            assert(self.inputs().len() == self.traces().len());
            assert(forall|k: int|
                0 <= k < self.inputs().len() ==> (#[trigger] self.inputs()[k]).id == InputId(
                    (k + 1) as usize,
                ));
            lemma_first_index(before.configurations(), has_id(id), 0);
            lemma_first_index(self.configurations(), has_id(id), 0);
            assert(has_id(id)(self.configurations()[before.configurations().len() as int]));
            assert forall|a: int, b: int| 0 <= a < b < self.configurations().len() implies (
            #[trigger] self.configurations()[a]).fuzzer_configuration_id != (
            #[trigger] self.configurations()[b]).fuzzer_configuration_id by {
                if b < before.configurations().len() {
                    assert(self.configurations()[a] == before.configurations()[a]);
                    assert(self.configurations()[b] == before.configurations()[b]);
                } else {
                    assert(self.configurations()[a] == before.configurations()[a]);
                    assert(!has_id(id)(before.configurations()[a]));
                }
            }
        }
    }

    /// Records one coverage event of configuration `fuzzer_configuration_id`
    /// on a line, and counts the line for its file if the configuration
    /// covers it for the first time.
    pub fn record_line_coverage(line_id: LineId, fuzzer_configuration_id: u32, sut_db: &mut SUT)
        requires
            old(sut_db).wf(),
            old(sut_db).coverage_consistent(),
            old(sut_db).line_view(line_id) matches Some(m) ==> m.hit_count < u32::MAX,
        ensures
            final(sut_db).wf(),
            final(sut_db).coverage_consistent(),
            final(sut_db).same_files(old(sut_db)),
            final(sut_db).coverage_model() == record_line(
                old(sut_db).coverage_model(),
                line_id,
                fuzzer_configuration_id,
            ),
    {
        let ghost before = *sut_db;
        let c = fuzzer_configuration_id;
        let hits = sut_db.set_line_covered(line_id, c);
        let ghost middle = *sut_db;
        let ghost f = line_id.0.0 - 1;
        let ghost j = line_id.1 - 1;
        if hits == 1 {
            proof {
                let m = before.line_view(line_id)->0;
                let old_lines = before.line_views()[f];
                assert(old_lines[j] == m);
                assert(middle.line_views()[f] == old_lines.update(j, covered_by(m, c)));
                assert(!m.fuzzer_configuration_ids.contains(c));
                lemma_covered_by_lists(m, c, c);
                lemma_count_covering_update(old_lines, j, covered_by(m, c), c);
                lemma_count_covering_bound(middle.line_views()[f], c);
                assert(before.file_wf(f));
                assert(old_lines.len() == before.line_records()[f]@.len());
                assert(middle.files()[f] == before.files()[f]);
                assert(hits_of(before.files()[f].unique_line_hits@, c) == count_covering(
                    before.line_views()[f],
                    c,
                ));
            }
            sut_db.increment_unique_line_hits(&line_id.0, c);
        }
        proof {
            let after = *sut_db;
            assert(after.line_views() =~= middle.line_views());
            match before.line_view(line_id) {
                None => {
                    assert(after == before);
                },
                Some(m) => {
                    let old_lines = before.line_views()[f];
                    assert(old_lines[j] == m);
                    assert(model_line(before.coverage_model(), line_id) == Some(m));
                    assert(after.line_views()[f] == old_lines.update(j, covered_by(m, c)));
                    assert(after.coverage_model().hits =~= record_line(
                        before.coverage_model(),
                        line_id,
                        c,
                    ).hits);
                    assert forall|g: int, k: u32| 0 <= g < after.files().len() implies hits_of(
                        (#[trigger] after.files()[g]).unique_line_hits@,
                        k,
                    ) == #[trigger] count_covering(after.line_views()[g], k) by {
                        assert(hits_of(before.files()[g].unique_line_hits@, k) == count_covering(
                            before.line_views()[g],
                            k,
                        ));
                        if g == f {
                            lemma_count_covering_update(old_lines, j, covered_by(m, c), k);
                            lemma_covered_by_lists(m, c, k);
                        } else {
                            assert(after.line_views()[g] == before.line_views()[g]);
                        }
                    }
                },
            }
        }
    }

    /// Whether some line that would be recorded has a hit count that cannot
    /// go higher.
    fn any_counter_full(sut_db: &SUT, lines: &Vec<LineId>) -> (r: bool)
        ensures
            r == counters_full(sut_db.coverage_model(), lines@),
    {
        let mut k: usize = 0;
        while k < lines.len()
            invariant
                k <= lines@.len(),
                forall|j: int|
                    0 <= j < k ==> !(!is_comment_in(sut_db.coverage_model(), #[trigger] lines@[j])
                        && (match model_line(sut_db.coverage_model(), lines@[j]) {
                        Some(v) => v.hit_count == u32::MAX,
                        None => false,
                    })),
            decreases lines@.len() - k,
        {
            proof {
                lemma_model_line(sut_db, lines@[k as int]);
            }
            match sut_db.get_line_meta(lines[k]) {
                Some(m) => {
                    if !m.is_comment && m.hit_count == u32::MAX {
                        return true;
                    }
                },
                None => {},
            }
            k = k + 1;
        }
        false
    }

    /// Records the coverage of the lines of a trace and gives the lines
    /// counted as covered: all but those marked as comments.
    fn record_trace(lines: &Vec<LineId>, c: u32, sut_db: &mut SUT) -> (r: Vec<LineId>)
        requires
            old(sut_db).wf(),
            old(sut_db).coverage_consistent(),
            lines@.no_duplicates(),
            !counters_full(old(sut_db).coverage_model(), lines@),
        ensures
            final(sut_db).wf(),
            final(sut_db).coverage_consistent(),
            final(sut_db).same_files(old(sut_db)),
            final(sut_db).coverage_model() == record_from(
                Recording { model: old(sut_db).coverage_model(), covered: Seq::empty() },
                lines@,
                c,
                0,
            ).model,
            r@ == record_from(
                Recording { model: old(sut_db).coverage_model(), covered: Seq::empty() },
                lines@,
                c,
                0,
            ).covered,
    {
        let ghost start = *sut_db;
        let ghost first = Recording { model: start.coverage_model(), covered: Seq::empty() };
        let mut covered: Vec<LineId> = Vec::new();
        let mut k: usize = 0;
        while k < lines.len()
            invariant
                k <= lines@.len(),
                lines@.no_duplicates(),
                sut_db.wf(),
                sut_db.coverage_consistent(),
                sut_db.same_files(&start),
                !counters_full(start.coverage_model(), lines@),
                first == (Recording { model: start.coverage_model(), covered: Seq::empty() }),
                record_from(first, lines@, c, 0) == record_from(
                    Recording { model: sut_db.coverage_model(), covered: covered@ },
                    lines@,
                    c,
                    k as int,
                ),
                forall|j: int|
                    k <= j < lines@.len() ==> model_line(
                        sut_db.coverage_model(),
                        #[trigger] lines@[j],
                    ) == model_line(start.coverage_model(), lines@[j]),
            decreases lines@.len() - k,
        {
            let l = lines[k];
            let ghost model = sut_db.coverage_model();
            proof {
                lemma_model_line(sut_db, l);
                assert(model_line(model, lines@[k as int]) == model_line(
                    start.coverage_model(),
                    lines@[k as int],
                ));
            }
            let comment = match sut_db.get_line_meta(l) {
                Some(m) => m.is_comment,
                None => false,
            };
            if !comment {
                Self::record_line_coverage(l, c, sut_db);
                covered.push(l);
                proof {
                    assert forall|j: int| k < j < lines@.len() implies model_line(
                        sut_db.coverage_model(),
                        #[trigger] lines@[j],
                    ) == model_line(start.coverage_model(), lines@[j]) by {
                        lemma_record_line_other(model, l, c, lines@[j]);
                    }
                }
            }
            k = k + 1;
        }
        covered
    }

    /// Registers an input whose file has the stem `stem`, as a seed or as a
    /// derived input, as `kind` says, or as the stem says if `kind` is
    /// `None`.
    pub fn add_stem(
        &mut self,
        stem: String,
        trace: Trace,
        sut_db: &mut SUT,
        fuzzer_configuration_id: u32,
        kind: Option<bool>,
    ) -> (r: Result<InputId, InputError>)
        requires
            old(self).wf(),
            old(sut_db).wf(),
            old(sut_db).coverage_consistent(),
            trace@.lines.no_duplicates(),
        ensures
            final(self).wf(),
            final(sut_db).wf(),
            final(sut_db).coverage_consistent(),
            final(self).stem_added(
                old(self),
                final(sut_db),
                old(sut_db),
                stem@,
                trace,
                fuzzer_configuration_id,
                kind,
                r,
            ),
    {
        let chars = to_chars(stem.as_str());
        let info = match parse_stem(chars.as_slice()) {
            Ok(info) => info,
            Err(e) => {
                return Err(InputError::Name(e));
            },
        };
        if self.inputs.len() == usize::MAX {
            return Err(InputError::TooManyInputs);
        }
        if Self::any_counter_full(sut_db, &trace.unique_lines_set) {
            return Err(InputError::HitCountOverflow);
        }
        let seed = match kind {
            Some(seed) => seed,
            None => is_seed_name(chars.as_slice()),
        };
        let id = InputId(self.inputs.len() + 1);
        let covered = Self::record_trace(&trace.unique_lines_set, fuzzer_configuration_id, sut_db);
        let meta = InputMeta {
            id,
            fuzz_input_id: info.fuzz_input_id,
            total_mutations_required_to_generate: info.total_mutations,
            execution_time: info.execution_time,
            fuzzer_coverage: info.fuzzer_coverage,
            executed_on: info.executed_on,
            source_line_coverage: covered,
            parents: info.parents,
            is_initial_seed: seed,
            fuzzer_configuration: fuzzer_configuration_id,
            file_name_stem: stem,
        };
        let ghost before = *self;
        let key = Self::key_of(fuzzer_configuration_id, info.fuzz_input_id);
        self.links.insert(key, self.inputs.len());
        self.inputs.push(meta);
        self.traces.push(trace);
        proof {
            broadcast use vstd::std_specs::hash::group_hash_axioms;

            assert(self.links() == before.links().insert(key, before.inputs().len() as usize));
            assert(self.inputs() == before.inputs().push(meta));
            assert forall|c: u32, f: u32| #![trigger link_key(c, f)]
                match last_index(self.inputs(), is_input(c, f), self.inputs().len() as int) {
                    Some(i) => self.links().contains_key(link_key(c, f)) && self.links()[link_key(
                        c,
                        f,
                    )] == i,
                    None => !self.links().contains_key(link_key(c, f)),
                } by {
                lemma_last_index_push(before.inputs(), meta, is_input(c, f));
                lemma_link_key_injective(c, f, fuzzer_configuration_id, info.fuzz_input_id);
                assert(before.links_wf());
                let _ = link_key(c, f);
            }
            assert(self.inputs().drop_last() == before.inputs());
            assert(self.inputs().last() == meta);
            assert(self.configurations() == before.configurations());
            assert(self.children_index() == before.children_index());
            assert forall|k: int| 0 <= k < self.inputs().len() implies (
            #[trigger] self.inputs()[k]).id == InputId((k + 1) as usize) by {
                if k < before.inputs().len() {
                    assert(self.inputs()[k] == before.inputs()[k]);
                }
            }
            lemma_recorded_once(
                Recording { model: old(sut_db).coverage_model(), covered: Seq::empty() },
                trace@.lines,
                fuzzer_configuration_id,
                0,
            );
            assert forall|k: int| 0 <= k < self.inputs().len() implies (
            #[trigger] self.inputs()[k]).source_line_coverage@.no_duplicates() by {
                if k < before.inputs().len() {
                    assert(self.inputs()[k] == before.inputs()[k]);
                }
            }
        }
        Ok(id)
    }

    /// Registers an input as a seed or as a derived input, as `kind` says,
    /// or as its name says if `kind` is `None`.
    fn add_with_kind(
        &mut self,
        file_name: &str,
        trace: Trace,
        sut_db: &mut SUT,
        fuzzer_configuration_id: u32,
        kind: Option<bool>,
    ) -> (r: Result<InputId, InputError>)
        requires
            old(self).wf(),
            old(sut_db).wf(),
            old(sut_db).coverage_consistent(),
            trace@.lines.no_duplicates(),
        ensures
            final(self).wf(),
            final(sut_db).wf(),
            final(sut_db).coverage_consistent(),
            final(self).added(
                old(self),
                final(sut_db),
                old(sut_db),
                file_name@,
                trace,
                fuzzer_configuration_id,
                kind,
                r,
            ),
    {
        match file_stem_of(file_name) {
            Some(stem) => self.add_stem(stem, trace, sut_db, fuzzer_configuration_id, kind),
            None => Err(InputError::NoFileName),
        }
    }

    /// Registers an input with its trace and records the coverage of the
    /// trace. The name of the file says what the input is: a stem that holds
    /// `orig` names an initial seed, any other a derived input.
    pub fn add_input(
        &mut self,
        file_name: &str,
        trace: Trace,
        sut_db: &mut SUT,
        fuzzer_configuration_id: u32,
    ) -> (r: Result<InputId, InputError>)
        requires
            old(self).wf(),
            old(sut_db).wf(),
            old(sut_db).coverage_consistent(),
            trace@.lines.no_duplicates(),
        ensures
            final(self).wf(),
            final(sut_db).wf(),
            final(sut_db).coverage_consistent(),
            final(self).added(
                old(self),
                final(sut_db),
                old(sut_db),
                file_name@,
                trace,
                fuzzer_configuration_id,
                None,
                r,
            ),
    {
        self.add_with_kind(file_name, trace, sut_db, fuzzer_configuration_id, None)
    }

    /// Registers an input as an initial seed, whatever its name says.
    pub fn add_initial_seed(
        &mut self,
        file_name: &str,
        trace: Trace,
        sut_db: &mut SUT,
        fuzzer_configuration_id: u32,
    ) -> (r: Result<InputId, InputError>)
        requires
            old(self).wf(),
            old(sut_db).wf(),
            old(sut_db).coverage_consistent(),
            trace@.lines.no_duplicates(),
        ensures
            final(self).wf(),
            final(sut_db).wf(),
            final(sut_db).coverage_consistent(),
            final(self).added(
                old(self),
                final(sut_db),
                old(sut_db),
                file_name@,
                trace,
                fuzzer_configuration_id,
                Some(true),
                r,
            ),
    {
        self.add_with_kind(file_name, trace, sut_db, fuzzer_configuration_id, Some(true))
    }

    /// Registers an input as a derived input, whatever its name says.
    pub fn add_trace_input(
        &mut self,
        file_name: &str,
        trace: Trace,
        sut_db: &mut SUT,
        fuzzer_configuration_id: u32,
    ) -> (r: Result<InputId, InputError>)
        requires
            old(self).wf(),
            old(sut_db).wf(),
            old(sut_db).coverage_consistent(),
            trace@.lines.no_duplicates(),
        ensures
            final(self).wf(),
            final(sut_db).wf(),
            final(sut_db).coverage_consistent(),
            final(self).added(
                old(self),
                final(sut_db),
                old(sut_db),
                file_name@,
                trace,
                fuzzer_configuration_id,
                Some(false),
                r,
            ),
    {
        self.add_with_kind(file_name, trace, sut_db, fuzzer_configuration_id, Some(false))
    }

    /// The configuration with id `configuration_id`.
    pub fn get_fuzzer_configuration(&self, configuration_id: &u32) -> (r: Option<&FuzzerConfig>)
        ensures
            match r {
                Some(cfg) => self.configuration_index(*configuration_id) matches Some(i) && *cfg
                    == self.configurations()[i],
                None => self.configuration_index(*configuration_id) is None,
            },
    {
        let mut i: usize = 0;
        while i < self.fuzzer_configurations.len()
            invariant
                i <= self.fuzzer_configurations@.len(),
                first_index(self.configurations(), has_id(*configuration_id), 0) == first_index(
                    self.configurations(),
                    has_id(*configuration_id),
                    i as int,
                ),
            decreases self.fuzzer_configurations@.len() - i,
        {
            if self.fuzzer_configurations[i].fuzzer_configuration_id == *configuration_id {
                return Some(&self.fuzzer_configurations[i]);
            }
            i = i + 1;
        }
        None
    }

    /// All configurations, in the order in which their ids were first seen.
    pub fn get_all_fuzzer_configurations(&self) -> (r: &Vec<FuzzerConfig>)
        ensures
            r@ == self.configurations(),
    {
        &self.fuzzer_configurations
    }

    /// The ids of the seeds (`seed` true) or of the derived inputs (`seed`
    /// false), of configuration `c` if one is given, in order.
    fn collect(&self, seed: bool, c: Option<u32>) -> (r: Vec<InputId>)
        ensures
            r@ == select(self.inputs(), seed, c, self.inputs().len() as int),
            forall|k: int| 0 <= k < r@.len() ==> 1 <= (#[trigger] r@[k]).0 <= self.inputs().len(),
    {
        let mut r: Vec<InputId> = Vec::new();
        let mut n: usize = 0;
        while n < self.inputs.len()
            invariant
                n <= self.inputs@.len(),
                r@ == select(self.inputs(), seed, c, n as int),
                forall|k: int| 0 <= k < r@.len() ==> 1 <= (#[trigger] r@[k]).0 <= n,
            decreases self.inputs@.len() - n,
        {
            let m = &self.inputs[n];
            let wanted = match c {
                Some(c) => m.fuzzer_configuration == c,
                None => true,
            };
            if m.is_initial_seed == seed && wanted {
                r.push(InputId(n + 1));
            }
            n = n + 1;
        }
        r
    }

    /// The records of the inputs with the ids `ids`.
    fn records_of(&self, ids: &Vec<InputId>) -> (r: Vec<&InputMeta>)
        requires
            forall|k: int| 0 <= k < ids@.len() ==> 1 <= (#[trigger] ids@[k]).0 <= self.inputs().len(),
        ensures
            r@.len() == ids@.len(),
            forall|k: int| 0 <= k < r@.len() ==> *(#[trigger] r@[k]) == self.inputs()[ids@[k].0 - 1],
    {
        let mut r: Vec<&InputMeta> = Vec::new();
        let mut k: usize = 0;
        while k < ids.len()
            invariant
                k <= ids@.len(),
                forall|j: int|
                    0 <= j < ids@.len() ==> 1 <= (#[trigger] ids@[j]).0 <= self.inputs().len(),
                r@.len() == k,
                forall|j: int| 0 <= j < k ==> *(#[trigger] r@[j]) == self.inputs()[ids@[j].0 - 1],
            decreases ids@.len() - k,
        {
            r.push(&self.inputs[ids[k].0 - 1]);
            k = k + 1;
        }
        r
    }

    /// The ids of the initial seeds of a configuration, in order.
    pub fn get_all_initial_seeds_for_fuzzer_id(&self, fuzzer_id: &u32) -> (r: Vec<InputId>)
        ensures
            r@ == select(self.inputs(), true, Some(*fuzzer_id), self.inputs().len() as int),
    {
        self.collect(true, Some(*fuzzer_id))
    }

    /// The ids of the derived inputs of a configuration, in order.
    pub fn get_all_inputs_for_fuzzer_id(&self, fuzzer_id: &u32) -> (r: Vec<InputId>)
        ensures
            r@ == select(self.inputs(), false, Some(*fuzzer_id), self.inputs().len() as int),
    {
        self.collect(false, Some(*fuzzer_id))
    }

    /// The records of all derived inputs, in the order of their ids.
    pub fn get_all_inputs_meta_info(&self) -> (r: Vec<&InputMeta>)
        ensures
            r@.len() == select(self.inputs(), false, None, self.inputs().len() as int).len(),
            forall|k: int|
                0 <= k < r@.len() ==> *(#[trigger] r@[k]) == self.inputs()[select(
                    self.inputs(),
                    false,
                    None,
                    self.inputs().len() as int,
                )[k].0 - 1],
    {
        let ids = self.collect(false, None);
        self.records_of(&ids)
    }

    /// The records of the initial seeds of a configuration, in the order of
    /// their ids.
    pub fn get_all_initial_seeds_meta_info(&self, fuzzer_configuration_id: &u32) -> (r: Vec<
        &InputMeta,
    >)
        ensures
            r@.len() == select(
                self.inputs(),
                true,
                Some(*fuzzer_configuration_id),
                self.inputs().len() as int,
            ).len(),
            forall|k: int|
                0 <= k < r@.len() ==> *(#[trigger] r@[k]) == self.inputs()[select(
                    self.inputs(),
                    true,
                    Some(*fuzzer_configuration_id),
                    self.inputs().len() as int,
                )[k].0 - 1],
    {
        let ids = self.collect(true, Some(*fuzzer_configuration_id));
        self.records_of(&ids)
    }

    /// The record of a derived input.
    pub fn get_inputs_meta_info_for(&self, input_id: &InputId) -> (r: &InputMeta)
        requires
            self.is_derived(*input_id),
        ensures
            *r == self.inputs()[input_id.0 - 1],
    {
        &self.inputs[input_id.0 - 1]
    }

    /// The entries of the lineage index.
    pub fn get_children_index(&self) -> (r: &Vec<ChildrenEntry>)
        ensures
            r@ == self.children_index(),
    {
        &self.children
    }

    /// Replaces the lineage index.
    pub(crate) fn set_children_index(&mut self, index: Vec<ChildrenEntry>)
        requires
            old(self).wf(),
            keys_distinct(index@),
        ensures
            final(self).wf(),
            final(self).children_index() == index@,
            final(self).inputs() == old(self).inputs(),
            final(self).traces() == old(self).traces(),
            final(self).configurations() == old(self).configurations(),
            final(self).links() == old(self).links(),
    {
        let ghost before = *self;
        self.children = index;
        proof {
            assert(self.inputs() == before.inputs());
            assert(self.links() == before.links());
            assert(self.links_wf());
            assert(self.configurations() == before.configurations());
            assert(forall|k: int|
                0 <= k < self.inputs().len() ==> (#[trigger] self.inputs()[k]).id == InputId(
                    (k + 1) as usize,
                ));
        }
    }

    /// The number of inputs registered.
    pub fn input_count(&self) -> (r: usize)
        ensures
            r == self.inputs().len(),
    {
        self.inputs.len()
    }

    /// The record of an input, seed or derived, if it is registered.
    pub fn get_meta(&self, input_id: &InputId) -> (r: Option<&InputMeta>)
        ensures
            match r {
                Some(m) => self.knows(*input_id) && *m == self.inputs()[input_id.0 - 1],
                None => !self.knows(*input_id),
            },
    {
        if input_id.0 == 0 || input_id.0 > self.inputs.len() {
            None
        } else {
            Some(&self.inputs[input_id.0 - 1])
        }
    }

    /// The key under which the input `f` of configuration `c` is looked up.
    fn key_of(c: u32, f: u32) -> (k: u64)
        ensures
            k == link_key(c, f),
    {
        (c as u64) * 0x1_0000_0000 + f as u64
    }

    /// The input of a configuration that the fuzzer calls `fuzz_input_id`,
    /// if there is one: the last one registered under that name.
    pub fn find_input_id(&self, fuzzer_configuration_id: &u32, fuzz_input_id: &u32) -> (r: Option<
        InputId,
    >)
        requires
            self.wf(),
        ensures
            r == self.resolve(*fuzzer_configuration_id, *fuzz_input_id),
            r matches Some(id) ==> self.knows(id) && is_input(
                *fuzzer_configuration_id,
                *fuzz_input_id,
            )(self.inputs()[id.0 - 1]),
    {
        broadcast use vstd::std_specs::hash::group_hash_axioms;

        let key = Self::key_of(*fuzzer_configuration_id, *fuzz_input_id);
        let count = self.inputs.len();
        proof {
            let _ = link_key(*fuzzer_configuration_id, *fuzz_input_id);
            lemma_last_index(
                self.inputs(),
                is_input(*fuzzer_configuration_id, *fuzz_input_id),
                self.inputs().len() as int,
            );
        }
        match self.links.get(&key) {
            Some(i) => Some(InputId(*i + 1)),
            None => None,
        }
    }

    /// The input of a configuration that the fuzzer calls `fuzz_input_id`.
    pub fn get_input_id_for(&self, fuzzer_configuration_id: &u32, fuzz_input_id: &u32) -> (r:
        InputId)
        requires
            self.wf(),
            self.resolve(*fuzzer_configuration_id, *fuzz_input_id) is Some,
        ensures
            Some(r) == self.resolve(*fuzzer_configuration_id, *fuzz_input_id),
    {
        match self.find_input_id(fuzzer_configuration_id, fuzz_input_id) {
            Some(id) => id,
            None => InputId(0),
        }
    }

    /// The trace of an input.
    pub fn get_trace_for(&self, input_id: &InputId) -> (r: &Trace)
        requires
            self.wf(),
            self.knows(*input_id),
        ensures
            *r == self.traces()[input_id.0 - 1],
    {
        &self.traces[input_id.0 - 1]
    }

    /// The least and the greatest time of execution among the derived
    /// inputs of a configuration; `None` if it has no derived input.
    pub fn find_run_times(&self, fuzzer_configuration_id: &u32) -> (r: Option<(i64, i64)>)
        ensures
            r == run_times(self.inputs(), *fuzzer_configuration_id, self.inputs().len() as int),
    {
        let mut r: Option<(i64, i64)> = None;
        let mut n: usize = 0;
        while n < self.inputs.len()
            invariant
                n <= self.inputs@.len(),
                r == run_times(self.inputs(), *fuzzer_configuration_id, n as int),
            decreases self.inputs@.len() - n,
        {
            let m = &self.inputs[n];
            if !m.is_initial_seed && m.fuzzer_configuration == *fuzzer_configuration_id {
                let at = m.executed_on;
                r = match r {
                    None => Some((at, at)),
                    Some((lo, hi)) => Some(
                        (
                            if at < lo {
                                at
                            } else {
                                lo
                            },
                            if at > hi {
                                at
                            } else {
                                hi
                            },
                        ),
                    ),
                };
            }
            n = n + 1;
        }
        r
    }

    /// The least and the greatest time of execution among the derived
    /// inputs of a configuration that has some.
    pub fn get_run_times_for_fuzzer_id(&self, fuzzer_configuration_id: &u32) -> (r: (i64, i64))
        requires
            run_times(self.inputs(), *fuzzer_configuration_id, self.inputs().len() as int) is Some,
        ensures
            Some(r) == run_times(
                self.inputs(),
                *fuzzer_configuration_id,
                self.inputs().len() as int,
            ),
    {
        match self.find_run_times(fuzzer_configuration_id) {
            Some(times) => times,
            None => (0, 0),
        }
    }
}

/// Every input that [`select`] gives is registered and of the kind asked
/// for.
pub proof fn lemma_select_known(inputs: Seq<InputMeta>, seed: bool, c: Option<u32>, n: int, k: int)
    requires
        0 <= n <= inputs.len() <= usize::MAX,
        0 <= k < select(inputs, seed, c, n).len(),
    ensures
        1 <= select(inputs, seed, c, n)[k].0 <= n,
        inputs[select(inputs, seed, c, n)[k].0 - 1].is_initial_seed == seed,
        c matches Some(id) ==> inputs[select(inputs, seed, c, n)[k].0 - 1].fuzzer_configuration == id,
    decreases n,
{
    if n > 0 {
        let rest = select(inputs, seed, c, n - 1);
        if k < rest.len() {
            lemma_select_known(inputs, seed, c, n - 1, k);
        }
    }
}

/// Two names with the same key are the same name.
pub proof fn lemma_link_key_injective(c: u32, f: u32, d: u32, g: u32)
    ensures
        link_key(c, f) == link_key(d, g) <==> (c == d && f == g),
{
}

/// The coverage model of an index holds the records of its lines.
pub proof fn lemma_model_line(sut: &SUT, l: LineId)
    ensures
        model_line(sut.coverage_model(), l) == sut.line_view(l),
{
    if sut.knows_line(l) {
        let f = l.0.0 - 1;
        assert(sut.line_views()[f].len() == sut.line_records()[f]@.len());
    } else {
        if 1 <= l.0.0 <= sut.line_records().len() {
            let f = l.0.0 - 1;
            assert(sut.line_views()[f].len() == sut.line_records()[f]@.len());
        }
    }
}

/// Recording a coverage event keeps the count that each file keeps for
/// each configuration equal to the number of its lines that list the
/// configuration. The count of the file of the line for the configuration
/// of the event goes up by one if the line did not list the configuration;
/// no other count changes.
pub proof fn lemma_record_line_counts(sut: &SUT, l: LineId, c: u32, f: int, k: u32)
    requires
        sut.wf(),
        sut.coverage_consistent(),
        0 <= f < sut.files().len(),
    ensures
        hits_of(record_line(sut.coverage_model(), l, c).hits[f], k) == count_covering(
            record_line(sut.coverage_model(), l, c).lines[f],
            k,
        ),
        hits_of(record_line(sut.coverage_model(), l, c).hits[f], k) == hits_of(
            sut.files()[f].unique_line_hits@,
            k,
        ) + (if f == l.0.0 - 1 && k == c && (sut.line_view(l) matches Some(m)
            && !m.fuzzer_configuration_ids.contains(c)) {
            1nat
        } else {
            0nat
        }),
{
    let model = sut.coverage_model();
    let after = record_line(model, l, c);
    lemma_model_line(sut, l);
    assert(hits_of(sut.files()[f].unique_line_hits@, k) == count_covering(sut.line_views()[f], k));
    assert(model.hits[f] == sut.files()[f].unique_line_hits@);
    assert(model.lines[f] == sut.line_views()[f]);
    match sut.line_view(l) {
        None => {},
        Some(m) => {
            let g = l.0.0 - 1;
            let j = l.1 - 1;
            let old_lines = model.lines[g];
            assert(sut.file_wf(g));
            assert(old_lines.len() == sut.line_records()[g]@.len());
            assert(old_lines[j] == m);
            if f == g {
                lemma_count_covering_update(old_lines, j, covered_by(m, c), k);
                lemma_covered_by_lists(m, c, k);
                if k == c && !m.fuzzer_configuration_ids.contains(c) {
                    lemma_count_covering_bound(old_lines.update(j, covered_by(m, c)), c);
                }
            }
        },
    }
}

/// Recording a coverage event on one line leaves the records of all other
/// lines as they are.
pub proof fn lemma_record_line_other(m: CoverageModel, l: LineId, c: u32, other: LineId)
    requires
        other != l,
    ensures
        model_line(record_line(m, l, c), other) == model_line(m, other),
{
}

} // verus!
