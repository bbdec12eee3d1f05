//! Coverage of inputs by file, and how the bytes of inputs change from a
//! seed to its descendants.

use crate::custom_types::FileId;
use crate::custom_types::InputId;
use crate::custom_types::InputMeta;
use crate::custom_types::LineId;
use crate::custom_types::LineMeta;
use crate::custom_types::LineMetaView;
use crate::input_name::raw_input_name;
use crate::input_name::raw_name;
use crate::inputs_database::InputsDatabase;
use crate::lineage_index::find_entry;
use crate::paths::string_from_chars;
use crate::search::first_index;
use crate::search::lemma_first_index;
use crate::sut_database::views_of;
use crate::sut_database::SUT;
use crate::text::to_chars;
use std::collections::HashMap;
use vstd::prelude::*;

verus! {

/// The records of those of the first `n` lines of `covered` that lie in
/// `file` and that the index `sut` knows, in order.
pub open spec fn lines_in_file(sut: &SUT, covered: Seq<LineId>, file: FileId, n: int) -> Seq<
    LineMetaView,
>
    decreases n,
{
    if n <= 0 {
        Seq::empty()
    } else {
        let rest = lines_in_file(sut, covered, file, n - 1);
        let l = covered[n - 1];
        if l.0 == file && sut.line_view(l) is Some {
            rest.push(sut.line_view(l)->0)
        } else {
            rest
        }
    }
}

/// Every record of `records` is that of one of the first `n` lines of
/// `covered`.
pub open spec fn records_among(records: Seq<LineMetaView>, covered: Seq<LineId>, n: int) -> bool {
    forall|a: int|
        0 <= a < records.len() ==> exists|j: int|
            0 <= j < n && j < covered.len() && #[trigger] covered[j] == LineId(
                (#[trigger] records[a]).file_id,
                records[a].line_num,
            )
}

/// Of lines of which none is listed twice, an index that is in order gives
/// no record twice.
pub proof fn lemma_lines_in_file_once(sut: &SUT, covered: Seq<LineId>, file: FileId, n: int)
    requires
        sut.wf(),
        covered.no_duplicates(),
        0 <= n <= covered.len(),
    ensures
        lines_in_file(sut, covered, file, n).no_duplicates(),
        records_among(lines_in_file(sut, covered, file, n), covered, n),
    decreases n,
{
    if n > 0 {
        lemma_lines_in_file_once(sut, covered, file, n - 1);
        let rest = lines_in_file(sut, covered, file, n - 1);
        let all = lines_in_file(sut, covered, file, n);
        let l = covered[n - 1];
        if l.0 == file && sut.line_view(l) is Some {
            let v = sut.line_view(l)->0;
            sut.lemma_line_names_itself(l);
            assert(all == rest.push(v));
            assert forall|a: int| 0 <= a < all.len() implies exists|j: int|
                0 <= j < n && j < covered.len() && #[trigger] covered[j] == LineId(
                    (#[trigger] all[a]).file_id,
                    all[a].line_num,
                ) by {
                if a < rest.len() {
                    let j = choose|j: int|
                        0 <= j < n - 1 && j < covered.len() && #[trigger] covered[j] == LineId(
                            rest[a].file_id,
                            rest[a].line_num,
                        );
                    assert(covered[j] == LineId(all[a].file_id, all[a].line_num));
                } else {
                    assert(covered[n - 1] == LineId(all[a].file_id, all[a].line_num));
                }
            }
            assert forall|a: int, b: int|
                0 <= a < all.len() && 0 <= b < all.len() && a != b implies all[a] != all[b] by {
                if a < rest.len() && b < rest.len() {
                } else if a < rest.len() {
                    let j = choose|j: int|
                        0 <= j < n - 1 && j < covered.len() && #[trigger] covered[j] == LineId(
                            rest[a].file_id,
                            rest[a].line_num,
                        );
                    assert(covered[j] != covered[n - 1]);
                } else {
                    let j = choose|j: int|
                        0 <= j < n - 1 && j < covered.len() && #[trigger] covered[j] == LineId(
                            rest[b].file_id,
                            rest[b].line_num,
                        );
                    assert(covered[j] != covered[n - 1]);
                }
            }
        } else {
            assert(all == rest);
            assert forall|a: int| 0 <= a < all.len() implies exists|j: int|
                0 <= j < n && j < covered.len() && #[trigger] covered[j] == LineId(
                    (#[trigger] all[a]).file_id,
                    all[a].line_num,
                ) by {
                let j = choose|j: int|
                    0 <= j < n - 1 && j < covered.len() && #[trigger] covered[j] == LineId(
                        rest[a].file_id,
                        rest[a].line_num,
                    );
                assert(covered[j] == LineId(all[a].file_id, all[a].line_num));
            }
        }
    }
}

/// The records of the lines of `covered` that lie in the file `file_id`.
/// Where `covered` lists no line twice, no record is given twice.
pub fn file_coverage(covered: &Vec<LineId>, file_id: &FileId, sut_db: &SUT) -> (r: Vec<LineMeta>)
    ensures
        views_of(r@) == lines_in_file(sut_db, covered@, *file_id, covered@.len() as int),
        sut_db.wf() && covered@.no_duplicates() ==> views_of(r@).no_duplicates(),
{
    let mut r: Vec<LineMeta> = Vec::new();
    let mut n: usize = 0;
    proof {
        assert(views_of(r@) =~= lines_in_file(sut_db, covered@, *file_id, 0));
        if sut_db.wf() && covered@.no_duplicates() {
            lemma_lines_in_file_once(sut_db, covered@, *file_id, covered@.len() as int);
        }
    }
    while n < covered.len()
        invariant
            n <= covered@.len(),
            views_of(r@) == lines_in_file(sut_db, covered@, *file_id, n as int),
        decreases covered@.len() - n,
    {
        let l = covered[n];
        if l.0 == *file_id {
            match sut_db.get_line_meta(l) {
                Some(m) => {
                    let ghost before = r@;
                    let copy = m.clone();
                    r.push(copy);
                    proof {
                        assert(views_of(r@) =~= views_of(before).push(m@));
                    }
                },
                None => {},
            }
        }
        n = n + 1;
    }
    r
}

/// The property of an input to be an initial seed of configuration `c` to
/// which the fuzzer gave the id `f`.
pub open spec fn is_seed_named(c: u32, f: u32) -> spec_fn(InputMeta) -> bool {
    |m: InputMeta| m.is_initial_seed && m.fuzzer_configuration == c && m.fuzz_input_id == f
}

/// The coverage in `file` of those of the first `n` inputs of `list` that
/// are registered and cover some line of the file that `sut` knows.
pub open spec fn coverage_of_each(
    db: &InputsDatabase,
    sut: &SUT,
    list: Seq<InputId>,
    file: FileId,
    n: int,
) -> Seq<(InputId, Seq<LineMetaView>)>
    decreases n,
{
    if n <= 0 {
        Seq::empty()
    } else {
        let rest = coverage_of_each(db, sut, list, file, n - 1);
        let d = list[n - 1];
        if db.knows(d) {
            let covered = db.inputs()[d.0 - 1].source_line_coverage@;
            let lines = lines_in_file(sut, covered, file, covered.len() as int);
            if lines.len() > 0 {
                rest.push((d, lines))
            } else {
                rest
            }
        } else {
            rest
        }
    }
}

/// The mathematical content of a list of inputs with their coverage.
pub open spec fn coverage_views(r: Seq<(InputId, Vec<LineMeta>)>) -> Seq<
    (InputId, Seq<LineMetaView>),
> {
    Seq::new(r.len(), |k: int| (r[k].0, views_of(r[k].1@)))
}

/// The state of a comparison after one more input: the bytes seen last at
/// each index, and how often the byte at each index changed. An index that
/// the new input is the first to reach counts one change.
pub open spec fn diff_step(prev: Seq<u8>, counts: Seq<u32>, cur: Seq<u8>) -> (Seq<u8>, Seq<u32>) {
    let len = if cur.len() > prev.len() {
        cur.len()
    } else {
        prev.len()
    };
    (
        Seq::new(
            len,
            |i: int|
                if i < cur.len() {
                    cur[i]
                } else {
                    prev[i]
                },
        ),
        Seq::new(
            len,
            |i: int|
                if i < cur.len() {
                    if i < prev.len() {
                        if prev[i] != cur[i] {
                            (counts[i] + 1) as u32
                        } else {
                            counts[i]
                        }
                    } else {
                        1u32
                    }
                } else {
                    counts[i]
                },
        ),
    )
}

/// The state of a comparison after the inputs from index `k` on.
pub open spec fn diff_from(prev: Seq<u8>, counts: Seq<u32>, children: Seq<Seq<u8>>, k: int) -> (
    Seq<u8>,
    Seq<u32>,
)
    decreases children.len() - k,
{
    if k < 0 || k >= children.len() {
        (prev, counts)
    } else {
        let next = diff_step(prev, counts, children[k]);
        diff_from(next.0, next.1, children, k + 1)
    }
}

/// For each byte index, how often the byte changed on the way from the
/// seed through its descendants, each compared with what was seen last at
/// that index.
pub open spec fn change_counts(seed: Seq<u8>, children: Seq<Seq<u8>>) -> Seq<u32> {
    diff_from(seed, Seq::new(seed.len(), |i: int| 0u32), children, 0).1
}

/// The bytes of a list of inputs.
pub open spec fn byte_views(inputs: Seq<Vec<u8>>) -> Seq<Seq<u8>> {
    Seq::new(inputs.len(), |k: int| inputs[k]@)
}

/// The counts as a map from byte index to count.
pub open spec fn counts_map(counts: Seq<u32>) -> Map<usize, u32> {
    Map::new(|i: usize| i < counts.len(), |i: usize| counts[i as int])
}

/// A comparison in progress: more than `done` changes have been counted
/// nowhere, and the lists of bytes and counts are as long as the longest
/// input so far.
pub open spec fn diff_bounds(
    seed: Seq<u8>,
    children: Seq<Seq<u8>>,
    prev: Seq<u8>,
    counts: Seq<u32>,
    done: int,
) -> bool {
    &&& prev.len() == counts.len()
    &&& counts.len() >= seed.len()
    &&& forall|k: int| 0 <= k < done ==> counts.len() >= (#[trigger] children[k]).len()
    &&& (counts.len() == seed.len() || exists|k: int|
        0 <= k < done && counts.len() == (#[trigger] children[k]).len())
    &&& forall|i: int| 0 <= i < counts.len() ==> (#[trigger] counts[i]) <= done
}

/// One more input keeps a comparison within its bounds.
pub proof fn lemma_diff_step_bounds(
    seed: Seq<u8>,
    children: Seq<Seq<u8>>,
    prev: Seq<u8>,
    counts: Seq<u32>,
    done: int,
)
    requires
        0 <= done < children.len(),
        diff_bounds(seed, children, prev, counts, done),
    ensures
        diff_bounds(
            seed,
            children,
            diff_step(prev, counts, children[done]).0,
            diff_step(prev, counts, children[done]).1,
            done + 1,
        ),
{
    let next = diff_step(prev, counts, children[done]);
    assert forall|k: int| 0 <= k < done + 1 implies next.1.len() >= (
    #[trigger] children[k]).len() by {}
    if children[done].len() > prev.len() {
        assert(next.1.len() == children[done].len());
    } else if counts.len() != seed.len() {
        let k = choose|k: int| 0 <= k < done && counts.len() == (#[trigger] children[k]).len();
        assert(next.1.len() == children[k].len());
    }
}

/// The counts of a comparison cover exactly the indices of the longest
/// input, the seed included, and no count exceeds the number of
/// descendants.
pub proof fn lemma_change_counts_bounds(seed: Seq<u8>, children: Seq<Seq<u8>>)
    ensures
        change_counts(seed, children).len() >= seed.len(),
        forall|k: int|
            0 <= k < children.len() ==> change_counts(seed, children).len() >= (
            #[trigger] children[k]).len(),
        change_counts(seed, children).len() == seed.len() || exists|k: int|
            0 <= k < children.len() && change_counts(seed, children).len() == (
            #[trigger] children[k]).len(),
        forall|i: int|
            0 <= i < change_counts(seed, children).len() ==> (#[trigger] change_counts(
                seed,
                children,
            )[i]) <= children.len(),
{
    let zeros = Seq::new(seed.len(), |i: int| 0u32);
    lemma_diff_from_bounds(seed, children, seed, zeros, 0);
}

/// A comparison that is within its bounds stays within them to its end.
pub proof fn lemma_diff_from_bounds(
    seed: Seq<u8>,
    children: Seq<Seq<u8>>,
    prev: Seq<u8>,
    counts: Seq<u32>,
    done: int,
)
    requires
        0 <= done <= children.len(),
        diff_bounds(seed, children, prev, counts, done),
    ensures
        diff_bounds(
            seed,
            children,
            diff_from(prev, counts, children, done).0,
            diff_from(prev, counts, children, done).1,
            children.len() as int,
        ),
    decreases children.len() - done,
{
    if done < children.len() {
        lemma_diff_step_bounds(seed, children, prev, counts, done);
        let next = diff_step(prev, counts, children[done]);
        lemma_diff_from_bounds(seed, children, next.0, next.1, done + 1);
    }
}

/// For each byte index, how often the byte changed on the way from the
/// seed through its descendants.
pub fn byte_change_counts(seed: &Vec<u8>, children: &Vec<Vec<u8>>) -> (r: Vec<u32>)
    requires
        children@.len() <= u32::MAX,
    ensures
        r@ == change_counts(seed@, byte_views(children@)),
{
    let ghost all = byte_views(children@);
    let mut prev: Vec<u8> = Vec::new();
    let mut counts: Vec<u32> = Vec::new();
    let mut i: usize = 0;
    while i < seed.len()
        invariant
            i <= seed@.len(),
            prev@ == seed@.take(i as int),
            counts@ == Seq::new(i as nat, |j: int| 0u32),
        decreases seed@.len() - i,
    {
        prev.push(seed[i]);
        counts.push(0);
        proof {
            assert(prev@ =~= seed@.take(i + 1));
            assert(counts@ =~= Seq::new((i + 1) as nat, |j: int| 0u32));
        }
        i = i + 1;
    }
    proof {
        assert(seed@.take(i as int) == seed@);
    }
    let mut k: usize = 0;
    while k < children.len()
        invariant
            k <= children@.len(),
            children@.len() <= u32::MAX,
            all == byte_views(children@),
            diff_bounds(seed@, all, prev@, counts@, k as int),
            change_counts(seed@, all) == diff_from(prev@, counts@, all, k as int).1,
        decreases children@.len() - k,
    {
        let cur = &children[k];
        let ghost prev0 = prev@;
        let ghost counts0 = counts@;
        proof {
            assert(all[k as int] == cur@);
            lemma_diff_step_bounds(seed@, all, prev0, counts0, k as int);
        }
        let mut i: usize = 0;
        while i < cur.len()
            invariant
                i <= cur@.len(),
                k < children@.len() <= u32::MAX,
                prev0.len() == counts0.len(),
                forall|j: int| 0 <= j < counts0.len() ==> (#[trigger] counts0[j]) <= k,
                prev@.len() == counts@.len(),
                prev@.len() == (if i > prev0.len() {
                    i as int
                } else {
                    prev0.len() as int
                }),
                forall|j: int|
                    0 <= j < prev@.len() ==> (#[trigger] prev@[j]) == (if j < i {
                        cur@[j]
                    } else {
                        prev0[j]
                    }),
                forall|j: int|
                    0 <= j < counts@.len() ==> (#[trigger] counts@[j]) == (if j < i {
                        diff_step(prev0, counts0, cur@).1[j]
                    } else {
                        counts0[j]
                    }),
            decreases cur@.len() - i,
        {
            let byte = cur[i];
            if i < prev.len() {
                if prev[i] != byte {
                    let count: u32 = counts[i] + 1;
                    counts[i] = count;
                }
                prev[i] = byte;
            } else {
                prev.push(byte);
                counts.push(1);
            }
            i = i + 1;
        }
        proof {
            let next = diff_step(prev0, counts0, cur@);
            assert(prev@ =~= next.0);
            assert(counts@ =~= next.1);
        }
        k = k + 1;
    }
    counts
}

impl InputsDatabase {
    /// The records of the lines in one file that an initial seed covers.
    /// The seed is the first of configuration `fuzzer_configuration_id` to
    /// which the fuzzer gave the id `initial_seed_id`; there must be one.
    pub fn get_initial_seed_line_coverage_for_file_id(
        &self,
        fuzzer_configuration_id: &u32,
        initial_seed_id: &u32,
        file_id: &FileId,
        sut_db: &SUT,
    ) -> (r: Vec<LineMeta>)
        requires
            first_index(
                self.inputs(),
                is_seed_named(*fuzzer_configuration_id, *initial_seed_id),
                0,
            ) is Some,
        ensures
            ({
                let i = first_index(
                    self.inputs(),
                    is_seed_named(*fuzzer_configuration_id, *initial_seed_id),
                    0,
                )->0;
                let covered = self.inputs()[i].source_line_coverage@;
                views_of(r@) == lines_in_file(sut_db, covered, *file_id, covered.len() as int)
            }),
            self.wf() && sut_db.wf() ==> views_of(r@).no_duplicates(),
    {
        proof {
            lemma_first_index(
                self.inputs(),
                is_seed_named(*fuzzer_configuration_id, *initial_seed_id),
                0,
            );
        }
        match self.find_seed(fuzzer_configuration_id, initial_seed_id) {
            Some(m) => file_coverage(&m.source_line_coverage, file_id, sut_db),
            None => Vec::new(),
        }
    }

    /// The record of the first initial seed of a configuration to which the
    /// fuzzer gave the id `initial_seed_id`.
    pub fn find_seed(&self, fuzzer_configuration_id: &u32, initial_seed_id: &u32) -> (r: Option<
        &InputMeta,
    >)
        ensures
            match r {
                Some(m) => first_index(
                    self.inputs(),
                    is_seed_named(*fuzzer_configuration_id, *initial_seed_id),
                    0,
                ) matches Some(i) && *m == self.inputs()[i],
                None => first_index(
                    self.inputs(),
                    is_seed_named(*fuzzer_configuration_id, *initial_seed_id),
                    0,
                ) is None,
            },
    {
        let ghost p = is_seed_named(*fuzzer_configuration_id, *initial_seed_id);
        let n = self.input_count();
        let mut i: usize = 0;
        while i < n
            invariant
                i <= n,
                n == self.inputs().len(),
                p == is_seed_named(*fuzzer_configuration_id, *initial_seed_id),
                first_index(self.inputs(), p, 0) == first_index(self.inputs(), p, i as int),
            decreases n - i,
        {
            let m = self.get_meta(&InputId(i + 1)).unwrap();
            if m.is_initial_seed && m.fuzzer_configuration == *fuzzer_configuration_id
                && m.fuzz_input_id == *initial_seed_id {
                return Some(m);
            }
            i = i + 1;
        }
        None
    }

    /// For each input that descends from a seed and covers lines of one
    /// file, the records of those lines. The inputs come in the order in
    /// which the lineage index lists them.
    pub fn get_all_children_line_coverage_for_file_id(
        &self,
        fuzzer_configuration_id: &u32,
        initial_seed_id: &u32,
        file_id: &FileId,
        sut_db: &SUT,
    ) -> (r: Vec<(InputId, Vec<LineMeta>)>)
        ensures
            coverage_views(r@) == coverage_of_each(
                self,
                sut_db,
                self.children_or_none(*fuzzer_configuration_id, *initial_seed_id),
                *file_id,
                self.children_or_none(*fuzzer_configuration_id, *initial_seed_id).len() as int,
            ),
            self.wf() && sut_db.wf() ==> forall|k: int|
                0 <= k < r@.len() ==> views_of((#[trigger] r@[k]).1@).no_duplicates(),
    {
        let mut r: Vec<(InputId, Vec<LineMeta>)> = Vec::new();
        let index = self.get_children_index();
        let list = match find_entry(index, *fuzzer_configuration_id, *initial_seed_id) {
            Some(i) => &index[i].children,
            None => {
                proof {
                    assert(coverage_views(r@) =~= Seq::empty());
                }
                return r;
            },
        };
        let mut n: usize = 0;
        proof {
            assert(coverage_views(r@) =~= coverage_of_each(self, sut_db, list@, *file_id, 0));
        }
        while n < list.len()
            invariant
                n <= list@.len(),
                list@ == self.children_or_none(*fuzzer_configuration_id, *initial_seed_id),
                coverage_views(r@) == coverage_of_each(self, sut_db, list@, *file_id, n as int),
                self.wf() && sut_db.wf() ==> forall|k: int|
                    0 <= k < r@.len() ==> views_of((#[trigger] r@[k]).1@).no_duplicates(),
            decreases list@.len() - n,
        {
            let d = list[n];
            match self.get_meta(&d) {
                Some(m) => {
                    let lines = file_coverage(&m.source_line_coverage, file_id, sut_db);
                    if lines.len() > 0 {
                        let ghost before = r@;
                        let ghost shown = views_of(lines@);
                        r.push((d, lines));
                        proof {
                            assert(coverage_views(r@) =~= coverage_views(before).push((d, shown)));
                        }
                    }
                },
                None => {},
            }
            n = n + 1;
        }
        r
    }

    /// For each byte index, how often the byte changed on the way from a
    /// seed through its descendants.
    ///
    /// `seed_bytes` holds the bytes of the seed, `children_bytes` those of
    /// its descendants in the order in which the lineage index lists them.
    /// The counts start at zero for every byte of the seed. For each
    /// descendant in turn, a byte that differs from the byte seen last at
    /// its index counts one change, and so does a byte at an index that no
    /// earlier input reaches.
    pub fn compare_inputs(
        &self,
        configuration_id: &u32,
        initial_seed_id: &u32,
        seed_bytes: &Vec<u8>,
        children_bytes: &Vec<Vec<u8>>,
    ) -> (r: HashMap<usize, u32>)
        requires
            self.children_of(*configuration_id, *initial_seed_id) matches Some(list)
                && list.len() == children_bytes@.len(),
            children_bytes@.len() <= u32::MAX,
        ensures
            r@ == counts_map(change_counts(seed_bytes@, byte_views(children_bytes@))),
    {
        broadcast use vstd::std_specs::hash::group_hash_axioms;

        let counts = byte_change_counts(seed_bytes, children_bytes);
        let mut r: HashMap<usize, u32> = HashMap::new();
        let mut i: usize = 0;
        while i < counts.len()
            invariant
                i <= counts@.len(),
                r@ == counts_map(counts@.take(i as int)),
            decreases counts@.len() - i,
        {
            r.insert(i, counts[i]);
            proof {
                assert(r@ =~= counts_map(counts@.take(i + 1)));
            }
            i = i + 1;
        }
        proof {
            assert(counts@.take(i as int) == counts@);
        }
        r
    }

    /// The name of the file that holds the bytes of an input: the stem of
    /// the name of its trace with every `::` replaced by a comma.
    pub fn raw_file_name(m: &InputMeta) -> (r: String)
        ensures
            r@ == raw_name(m.file_name_stem@),
    {
        let stem = to_chars(m.file_name_stem.as_str());
        let name = raw_input_name(stem.as_slice());
        string_from_chars(name.as_slice())
    }
}

} // verus!
