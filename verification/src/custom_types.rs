//! Identifiers and metadata records shared by the whole model.

use std::collections::HashMap;
use vstd::prelude::*;

verus! {

/// Handle of a fuzzer input. Handles are dense: the first input registered
/// gets 1, the next 2, and so on. Zero is never assigned.
#[derive(Eq, PartialEq, Hash, Copy, Clone, Debug, Structural)]
pub struct InputId(pub usize);

impl InputId {
    pub fn new(id: usize) -> (r: Self)
        ensures
            r.0 == id,
    {
        InputId(id)
    }

    pub fn as_usize(&self) -> (r: usize)
        ensures
            r == self.0,
    {
        self.0
    }
}

/// Handle of a source file. Dense, starting at 1.
#[derive(Eq, PartialEq, Hash, Copy, Clone, Debug, Structural)]
pub struct FileId(pub usize);

impl FileId {
    pub fn new(id: usize) -> (r: Self)
        ensures
            r.0 == id,
    {
        FileId(id)
    }

    pub fn as_usize(&self) -> (r: usize)
        ensures
            r == self.0,
    {
        self.0
    }
}

/// A line of a source file: the file and the line number, counted from 1.
#[derive(Eq, PartialEq, Hash, Copy, Clone, Debug, Structural)]
pub struct LineId(pub FileId, pub u32);

impl LineId {
    pub fn new(file_id: FileId, num: u32) -> (r: Self)
        ensures
            r.0 == file_id,
            r.1 == num,
    {
        LineId(file_id, num)
    }

    pub fn file(&self) -> (r: FileId)
        ensures
            r == self.0,
    {
        self.0
    }

    pub fn num(&self) -> (r: u32)
        ensures
            r == self.1,
    {
        self.1
    }
}

/// What is known of one fuzzer input, seed or derived.
#[derive(Clone, Debug)]
pub struct InputMeta {
    pub id: InputId,
    pub fuzz_input_id: u32,
    pub total_mutations_required_to_generate: u32,
    pub execution_time: i64,
    pub fuzzer_coverage: u32,
    pub executed_on: i64,
    /// The lines this input covers, each once.
    pub source_line_coverage: Vec<LineId>,
    /// Fuzzer-local ids of the inputs this one was derived from.
    pub parents: Vec<u32>,
    pub is_initial_seed: bool,
    pub fuzzer_configuration: u32,
    pub file_name_stem: String,
}

impl InputMeta {
    pub fn new() -> (r: Self)
        ensures
            r.id == InputId(0),
            r.fuzz_input_id == 0,
            r.total_mutations_required_to_generate == 0,
            r.execution_time == 0,
            r.fuzzer_coverage == 0,
            r.executed_on == 0,
            r.source_line_coverage@ == Seq::<LineId>::empty(),
            r.parents@ == Seq::<u32>::empty(),
            !r.is_initial_seed,
            r.fuzzer_configuration == 0,
            r.file_name_stem@ == Seq::<char>::empty(),
    {
        InputMeta {
            id: InputId(0),
            fuzz_input_id: 0,
            total_mutations_required_to_generate: 0,
            execution_time: 0,
            fuzzer_coverage: 0,
            executed_on: 0,
            source_line_coverage: Vec::new(),
            parents: Vec::new(),
            is_initial_seed: false,
            fuzzer_configuration: 0,
            file_name_stem: String::new(),
        }
    }
}

impl Default for InputMeta {
    fn default() -> (r: Self)
        ensures
            r.id == InputId(0),
            r.fuzz_input_id == 0,
            r.total_mutations_required_to_generate == 0,
            r.execution_time == 0,
            r.fuzzer_coverage == 0,
            r.executed_on == 0,
            r.source_line_coverage@ == Seq::<LineId>::empty(),
            r.parents@ == Seq::<u32>::empty(),
            !r.is_initial_seed,
            r.fuzzer_configuration == 0,
            r.file_name_stem@ == Seq::<char>::empty(),
    {
        Self::new()
    }
}

/// The counts of a file that no configuration has covered.
pub open spec fn no_hits() -> Map<u32, u32> {
    Map::empty()
}

/// A source file of the system under test.
#[derive(Eq, PartialEq, Clone, Debug)]
pub struct FileMeta {
    pub name: String,
    /// One entry per line of the file, in line order.
    pub lines: Vec<LineId>,
    /// Per fuzzer configuration, how many distinct lines of this file it has
    /// covered. A configuration that covered none has no entry.
    pub unique_line_hits: HashMap<u32, u32>,
}

impl FileMeta {
    pub fn new(fname: &str) -> (r: Self)
        ensures
            r.name@ == fname@,
            r.lines@ == Seq::<LineId>::empty(),
            r.unique_line_hits@ == no_hits(),
    {
        FileMeta { name: fname.to_owned(), lines: Vec::new(), unique_line_hits: HashMap::new() }
    }
}

/// Mathematical content of a [`LineMeta`].
pub struct LineMetaView {
    pub file_id: FileId,
    pub line_num: u32,
    pub hit_count: u32,
    pub fuzzer_configuration_ids: Seq<u32>,
    pub is_comment: bool,
}

/// Coverage record of one source line.
#[derive(Eq, PartialEq, Hash, Debug)]
pub struct LineMeta {
    pub file_id: FileId,
    pub line_num: u32,
    /// Number of coverage events recorded for the line.
    pub hit_count: u32,
    /// The configurations that covered the line, in order of first coverage.
    pub fuzzer_configuration_ids: Vec<u32>,
    pub is_comment: bool,
}

impl View for LineMeta {
    type V = LineMetaView;

    open spec fn view(&self) -> LineMetaView {
        LineMetaView {
            file_id: self.file_id,
            line_num: self.line_num,
            hit_count: self.hit_count,
            fuzzer_configuration_ids: self.fuzzer_configuration_ids@,
            is_comment: self.is_comment,
        }
    }
}

impl Clone for LineMeta {
    fn clone(&self) -> (r: Self)
        ensures
            r@ == self@,
    {
        LineMeta {
            file_id: self.file_id,
            line_num: self.line_num,
            hit_count: self.hit_count,
            fuzzer_configuration_ids: self.fuzzer_configuration_ids.clone(),
            is_comment: self.is_comment,
        }
    }
}

} // verus!
