//! The lineage index: for each initial seed, the inputs that descend from
//! it.
//!
//! The index is built from the records of the inputs once all of them are
//! registered. It is keyed by the configuration and the id that the fuzzer
//! gave the seed.

use crate::custom_types::InputId;
use crate::inputs_database::has_key;
use crate::inputs_database::keys_distinct;
use crate::inputs_database::ChildrenEntry;
use crate::inputs_database::InputsDatabase;
use crate::search::first_index;
use crate::search::lemma_first_index;
use crate::search::lemma_first_index_push;
use crate::search::lemma_first_index_same;
use vstd::prelude::*;

verus! {

/// The inputs that `index` lists for seed `f` of configuration `c`.
pub open spec fn lookup(index: Seq<ChildrenEntry>, c: u32, f: u32) -> Option<Seq<InputId>> {
    match first_index(index, has_key(c, f), 0) {
        Some(i) => Some(index[i].children@),
        None => None,
    }
}

/// A list as an entry of the index: a seed without descendants has no
/// entry.
pub open spec fn as_entry(list: Seq<InputId>) -> Option<Seq<InputId>> {
    if list.len() > 0 {
        Some(list)
    } else {
        None
    }
}

/// `list` with `id` at its end, unless `id` is at its end already.
pub open spec fn with_child(list: Seq<InputId>, id: InputId) -> Seq<InputId> {
    if list.len() > 0 && list.last() == id {
        list
    } else {
        list.push(id)
    }
}

/// Whether `d` is among the elements of `v`.
pub fn contains_id(v: &Vec<InputId>, d: InputId) -> (b: bool)
    ensures
        b == v@.contains(d),
{
    let mut i: usize = 0;
    while i < v.len()
        invariant
            i <= v@.len(),
            forall|j: int| 0 <= j < i ==> v@[j] != d,
        decreases v@.len() - i,
    {
        if v[i] == d {
            return true;
        }
        i = i + 1;
    }
    false
}

/// Index of the entry for seed `f` of configuration `c`.
pub fn find_entry(index: &Vec<ChildrenEntry>, c: u32, f: u32) -> (r: Option<usize>)
    ensures
        match r {
            Some(i) => first_index(index@, has_key(c, f), 0) == Some(i as int) && i < index@.len(),
            None => first_index(index@, has_key(c, f), 0) is None,
        },
{
    let mut i: usize = 0;
    while i < index.len()
        invariant
            i <= index@.len(),
            first_index(index@, has_key(c, f), 0) == first_index(index@, has_key(c, f), i as int),
        decreases index@.len() - i,
    {
        if index[i].fuzzer_configuration == c && index[i].seed_fuzz_input_id == f {
            return Some(i);
        }
        i = i + 1;
    }
    None
}

/// Lists `id` as a descendant of seed `f` of configuration `c`, unless it
/// is the last one listed already.
fn append_child(index: &mut Vec<ChildrenEntry>, c: u32, f: u32, id: InputId)
    requires
        keys_distinct(old(index)@),
    ensures
        keys_distinct(final(index)@),
        lookup(final(index)@, c, f) == Some(
            match lookup(old(index)@, c, f) {
                Some(list) => with_child(list, id),
                None => seq![id],
            },
        ),
        forall|c2: u32, f2: u32|
            !(c2 == c && f2 == f) ==> #[trigger] lookup(final(index)@, c2, f2) == lookup(
                old(index)@,
                c2,
                f2,
            ),
{
    let ghost before = index@;
    match find_entry(index, c, f) {
        Some(i) => {
            let count = index[i].children.len();
            if count == 0 || index[i].children[count - 1] != id {
                index[i].children.push(id);
            }
            proof {
                lemma_first_index(before, has_key(c, f), 0);
                assert forall|j: int| 0 <= j < before.len() implies (
                #[trigger] index@[j]).fuzzer_configuration == before[j].fuzzer_configuration
                    && index@[j].seed_fuzz_input_id == before[j].seed_fuzz_input_id by {}
                lemma_first_index_same(before, index@, has_key(c, f), 0);
                assert forall|c2: u32, f2: u32| !(c2 == c && f2 == f) implies #[trigger] lookup(
                    index@,
                    c2,
                    f2,
                ) == lookup(before, c2, f2) by {
                    lemma_first_index_same(before, index@, has_key(c2, f2), 0);
                    lemma_first_index(before, has_key(c2, f2), 0);
                }
            }
        },
        None => {
            let mut children: Vec<InputId> = Vec::new();
            children.push(id);
            let entry = ChildrenEntry { fuzzer_configuration: c, seed_fuzz_input_id: f, children };
            index.push(entry);
            proof {
                lemma_first_index(before, has_key(c, f), 0);
                lemma_first_index_push(before, entry, has_key(c, f), 0);
                assert(index@[before.len() as int] == entry);
                assert(entry.children@ =~= seq![id]);
                assert forall|c2: u32, f2: u32| !(c2 == c && f2 == f) implies #[trigger] lookup(
                    index@,
                    c2,
                    f2,
                ) == lookup(before, c2, f2) by {
                    lemma_first_index_push(before, entry, has_key(c2, f2), 0);
                    lemma_first_index(before, has_key(c2, f2), 0);
                }
                assert forall|i: int, j: int| 0 <= i < j < index@.len() implies !((
                #[trigger] index@[i]).fuzzer_configuration == (
                #[trigger] index@[j]).fuzzer_configuration && index@[i].seed_fuzz_input_id
                    == index@[j].seed_fuzz_input_id) by {
                    if j < before.len() {
                        assert(index@[i] == before[i]);
                        assert(index@[j] == before[j]);
                    } else {
                        assert(index@[i] == before[i]);
                        assert(!has_key(c, f)(before[i]));
                    }
                }
            }
        },
    }
}

impl InputsDatabase {
    /// The inputs that the index lists for seed `f` of configuration `c`.
    pub open spec fn children_of(&self, c: u32, f: u32) -> Option<Seq<InputId>> {
        lookup(self.children_index(), c, f)
    }

    /// The inputs that the index lists for seed `f` of configuration `c`;
    /// none if it has no entry for the seed.
    pub open spec fn children_or_none(&self, c: u32, f: u32) -> Seq<InputId> {
        match self.children_of(c, f) {
            Some(list) => list,
            None => Seq::empty(),
        }
    }

    /// `d` is a derived input of configuration `c` that descends from an
    /// initial seed to which the fuzzer gave the id `f`.
    pub open spec fn descends_from_seed(&self, c: u32, f: u32, d: InputId) -> bool {
        &&& self.is_derived(d)
        &&& self.inputs()[d.0 - 1].fuzzer_configuration == c
        &&& exists|s: InputId| #[trigger]
            self.is_ancestor_seed(c, d, s) && self.inputs()[s.0 - 1].fuzz_input_id == f
    }

    /// The inputs among the first `n` that descend from seed `f` of
    /// configuration `c`, in the order of their ids.
    pub open spec fn descendants(&self, c: u32, f: u32, n: int) -> Seq<InputId>
        decreases n,
    {
        if n <= 0 {
            Seq::empty()
        } else {
            let rest = self.descendants(c, f, n - 1);
            if self.descends_from_seed(c, f, InputId(n as usize)) {
                rest.push(InputId(n as usize))
            } else {
                rest
            }
        }
    }

    /// The index lists, for every seed, the inputs registered so far that
    /// descend from it, and has no entry for a seed without descendants.
    pub open spec fn lineage_built(&self) -> bool {
        forall|c: u32, f: u32| #[trigger]
            self.children_of(c, f) == as_entry(
                self.descendants(c, f, self.inputs().len() as int),
            )
    }

    /// Descendants are listed in the order of their ids and are among the
    /// inputs looked at.
    pub proof fn lemma_descendants_bounded(&self, c: u32, f: u32, n: int, k: int)
        requires
            0 <= k < self.descendants(c, f, n).len(),
        ensures
            1 <= self.descendants(c, f, n)[k].0 <= n,
        decreases n,
    {
        if n > 0 {
            let rest = self.descendants(c, f, n - 1);
            if k < rest.len() {
                self.lemma_descendants_bounded(c, f, n - 1, k);
            }
        }
    }

    /// Builds the lineage index from the inputs registered so far.
    pub fn post_process(&mut self)
        requires
            old(self).wf(),
        ensures
            final(self).wf(),
            final(self).lineage_built(),
            final(self).inputs() == old(self).inputs(),
            final(self).traces() == old(self).traces(),
            final(self).configurations() == old(self).configurations(),
    {
        let mut index: Vec<ChildrenEntry> = Vec::new();
        let n = self.input_count();
        let mut k: usize = 0;
        proof {
            assert forall|c: u32, f: u32| #[trigger] lookup(index@, c, f) == as_entry(
                self.descendants(c, f, 0),
            ) by {}
        }
        while k < n
            invariant
                self.wf(),
                *self == *old(self),
                n == self.inputs().len(),
                k <= n,
                keys_distinct(index@),
                forall|c: u32, f: u32| #[trigger]
                    lookup(index@, c, f) == as_entry(self.descendants(c, f, k as int)),
            decreases n - k,
        {
            let id = InputId(k + 1);
            let m = self.get_meta(&id).unwrap();
            if !m.is_initial_seed {
                let cd = m.fuzzer_configuration;
                let seeds = self.get_initial_seed_parents_for(&id, &cd);
                let mut j: usize = 0;
                while j < seeds.len()
                    invariant
                        self.wf(),
                        n == self.inputs().len(),
                        k < n,
                        id == InputId((k + 1) as usize),
                        self.is_derived(id),
                        cd == self.inputs()[k as int].fuzzer_configuration,
                        j <= seeds@.len(),
                        forall|y: InputId| seeds@.contains(y) <==> self.is_ancestor_seed(cd, id, y),
                        keys_distinct(index@),
                        forall|c: u32, f: u32| #[trigger]
                            lookup(index@, c, f) == as_entry(
                                if c == cd && (exists|i: int|
                                    0 <= i < j && self.inputs()[(#[trigger] seeds@[i]).0
                                        - 1].fuzz_input_id == f) {
                                    self.descendants(c, f, k as int).push(id)
                                } else {
                                    self.descendants(c, f, k as int)
                                },
                            ),
                    decreases seeds@.len() - j,
                {
                    let s = seeds[j];
                    proof {
                        assert(seeds@.contains(s));
                    }
                    let fs = self.get_meta(&s).unwrap().fuzz_input_id;
                    let ghost before = index@;
                    append_child(&mut index, cd, fs, id);
                    proof {
                        assert forall|c: u32, f: u32| #[trigger] lookup(index@, c, f) == as_entry(
                            if c == cd && (exists|i: int|
                                0 <= i < j + 1 && self.inputs()[(#[trigger] seeds@[i]).0
                                    - 1].fuzz_input_id == f) {
                                self.descendants(c, f, k as int).push(id)
                            } else {
                                self.descendants(c, f, k as int)
                            },
                        ) by {
                            let was = exists|i: int|
                                0 <= i < j && self.inputs()[(#[trigger] seeds@[i]).0
                                    - 1].fuzz_input_id == f;
                            let is = exists|i: int|
                                0 <= i < j + 1 && self.inputs()[(#[trigger] seeds@[i]).0
                                    - 1].fuzz_input_id == f;
                            let desc = self.descendants(c, f, k as int);
                            if c == cd && f == fs {
                                assert(self.inputs()[seeds@[j as int].0 - 1].fuzz_input_id == f);
                                assert(is);
                                assert(lookup(before, c, f) == as_entry(
                                    if was {
                                        desc.push(id)
                                    } else {
                                        desc
                                    },
                                ));
                                if !was && desc.len() > 0 {
                                    self.lemma_descendants_bounded(
                                        c,
                                        f,
                                        k as int,
                                        desc.len() - 1,
                                    );
                                }
                            } else {
                                assert(lookup(index@, c, f) == lookup(before, c, f));
                                if c == cd && is {
                                    let i = choose|i: int|
                                        0 <= i < j + 1 && self.inputs()[(#[trigger] seeds@[i]).0
                                            - 1].fuzz_input_id == f;
                                    if i == j {
                                        assert(self.inputs()[seeds@[j as int].0 - 1].fuzz_input_id
                                            == fs);
                                    }
                                    assert(i < j);
                                    assert(was);
                                }
                            }
                        }
                    }
                    j = j + 1;
                }
                proof {
                    assert forall|c: u32, f: u32| #[trigger] lookup(index@, c, f) == as_entry(
                        self.descendants(c, f, k + 1),
                    ) by {
                        let hit = exists|i: int|
                            0 <= i < seeds@.len() && self.inputs()[(#[trigger] seeds@[i]).0
                                - 1].fuzz_input_id == f;
                        if c == cd && hit {
                            let i = choose|i: int|
                                0 <= i < seeds@.len() && self.inputs()[(#[trigger] seeds@[i]).0
                                    - 1].fuzz_input_id == f;
                            assert(seeds@.contains(seeds@[i]));
                            assert(self.is_ancestor_seed(c, id, seeds@[i]));
                            assert(self.descends_from_seed(c, f, id));
                        } else {
                            if self.descends_from_seed(c, f, id) {
                                let s = choose|s: InputId| #[trigger]
                                    self.is_ancestor_seed(c, id, s) && self.inputs()[s.0
                                        - 1].fuzz_input_id == f;
                                assert(seeds@.contains(s));
                                let i = choose|i: int| 0 <= i < seeds@.len() && seeds@[i] == s;
                                assert(self.inputs()[seeds@[i].0 - 1].fuzz_input_id == f);
                                assert(false);
                            }
                        }
                    }
                }
            } else {
                proof {
                    assert forall|c: u32, f: u32| #[trigger] lookup(index@, c, f) == as_entry(
                        self.descendants(c, f, k + 1),
                    ) by {
                        assert(!self.descends_from_seed(c, f, id));
                    }
                }
            }
            k = k + 1;
        }
        let ghost built = index@;
        let ghost before = *self;
        self.set_children_index(index);
        proof {
            assert forall|c: u32, f: u32| #[trigger]
                self.children_of(c, f) == as_entry(
                    self.descendants(c, f, self.inputs().len() as int),
                ) by {
                assert(self.children_of(c, f) == lookup(built, c, f));
                self.lemma_descendants_same(&before, c, f, n as int);
            }
        }
    }

    /// Two databases with the same inputs have the same descendants.
    pub proof fn lemma_descendants_same(&self, other: &InputsDatabase, c: u32, f: u32, n: int)
        requires
            self.inputs() == other.inputs(),
        ensures
            self.descendants(c, f, n) == other.descendants(c, f, n),
        decreases n,
    {
        if n > 0 {
            self.lemma_descendants_same(other, c, f, n - 1);
            let d = InputId(n as usize);
            assert(self.descends_from_seed(c, f, d) == other.descends_from_seed(c, f, d)) by {
                assert forall|s: InputId|
                    self.is_ancestor_seed(c, d, s) == other.is_ancestor_seed(c, d, s) by {
                    self.lemma_reaches_same(other, c, d, s);
                }
                if self.descends_from_seed(c, f, d) {
                    let s = choose|s: InputId| #[trigger]
                        self.is_ancestor_seed(c, d, s) && self.inputs()[s.0 - 1].fuzz_input_id
                            == f;
                    assert(other.is_ancestor_seed(c, d, s));
                }
                if other.descends_from_seed(c, f, d) {
                    let s = choose|s: InputId| #[trigger]
                        other.is_ancestor_seed(c, d, s) && other.inputs()[s.0 - 1].fuzz_input_id
                            == f;
                    assert(self.is_ancestor_seed(c, d, s));
                }
            }
        }
    }

    /// Two databases with the same inputs have the same chains of parents.
    pub proof fn lemma_reaches_same(&self, other: &InputsDatabase, c: u32, x: InputId, y: InputId)
        requires
            self.inputs() == other.inputs(),
        ensures
            self.reaches(c, x, y) == other.reaches(c, x, y),
    {
        assert forall|path: Seq<InputId>| self.is_path(c, path) == other.is_path(c, path) by {
            assert forall|a: InputId, b: InputId| self.edge(c, a, b) == other.edge(c, a, b) by {}
        }
        if self.reaches(c, x, y) {
            let path = choose|path: Seq<InputId>| #[trigger]
                self.is_path(c, path) && path[0] == x && path.last() == y;
            assert(other.is_path(c, path));
        }
        if other.reaches(c, x, y) {
            let path = choose|path: Seq<InputId>| #[trigger]
                other.is_path(c, path) && path[0] == x && path.last() == y;
            assert(self.is_path(c, path));
        }
    }

    /// Whether the index has an entry for a seed, that is, whether some
    /// input descends from it.
    pub fn has_children_for(&self, fuzzer_id: &u32, initial_seed_id: &u32) -> (r: bool)
        ensures
            r == (self.children_of(*fuzzer_id, *initial_seed_id) is Some),
    {
        find_entry(self.get_children_index(), *fuzzer_id, *initial_seed_id).is_some()
    }

    /// `d` is listed for every one of `seeds`.
    pub open spec fn common_to_all(&self, c: u32, seeds: Seq<u32>, d: InputId) -> bool {
        forall|i: int|
            0 <= i < seeds.len() ==> self.children_or_none(c, #[trigger] seeds[i]).contains(d)
    }

    /// Those of the first `n` inputs listed for the first of `seeds` that
    /// are listed for all of them, in the order of that list.
    pub open spec fn common_children(&self, c: u32, seeds: Seq<u32>, n: int) -> Seq<InputId>
        decreases n,
    {
        if n <= 0 || seeds.len() == 0 {
            Seq::empty()
        } else {
            let first = self.children_or_none(c, seeds[0]);
            let rest = self.common_children(c, seeds, n - 1);
            if self.common_to_all(c, seeds, first[n - 1]) {
                rest.push(first[n - 1])
            } else {
                rest
            }
        }
    }

    /// The inputs listed for all of `seeds` are exactly those that
    /// [`Self::common_children`] gives: the intersection of the lists.
    pub proof fn lemma_common_children_is_intersection(
        &self,
        c: u32,
        seeds: Seq<u32>,
        n: int,
        d: InputId,
    )
        requires
            seeds.len() > 0,
            0 <= n <= self.children_or_none(c, seeds[0]).len(),
        ensures
            self.common_children(c, seeds, n).contains(d) <==> (self.common_to_all(c, seeds, d)
                && self.children_or_none(c, seeds[0]).take(n).contains(d)),
        decreases n,
    {
        let first = self.children_or_none(c, seeds[0]);
        if n > 0 {
            self.lemma_common_children_is_intersection(c, seeds, n - 1, d);
            let rest = self.common_children(c, seeds, n - 1);
            let all = self.common_children(c, seeds, n);
            let longer = first.take(n);
            let shorter = first.take(n - 1);
            if longer.contains(d) {
                let i = choose|i: int| 0 <= i < longer.len() && longer[i] == d;
                if i < n - 1 {
                    assert(shorter[i] == d);
                    assert(shorter.contains(d));
                }
            }
            if shorter.contains(d) {
                let i = choose|i: int| 0 <= i < shorter.len() && shorter[i] == d;
                assert(longer[i] == d);
            }
            assert(first.take(n)[n - 1] == first[n - 1]);
            if self.common_to_all(c, seeds, first[n - 1]) {
                assert(all == rest.push(first[n - 1]));
                assert(all[rest.len() as int] == first[n - 1]);
                if all.contains(d) {
                    let i = choose|i: int| 0 <= i < all.len() && all[i] == d;
                    if i < rest.len() {
                        assert(rest[i] == d);
                        assert(rest.contains(d));
                    }
                }
                if rest.contains(d) {
                    let i = choose|i: int| 0 <= i < rest.len() && rest[i] == d;
                    assert(all[i] == d);
                }
            }
        }
    }

    /// The inputs that descend from all of the given seeds, in the order in
    /// which the index lists them for the first seed. A seed without entry
    /// in the index has no descendants; the first seed must have an
    /// entry.
    pub fn get_all_children_input_ids_for(&self, fuzzer_id: &u32, initial_seed_ids: &Vec<u32>)
        -> (r: Vec<InputId>)
        requires
            initial_seed_ids@.len() > 0 ==> self.children_of(*fuzzer_id, initial_seed_ids@[0])
                is Some,
        ensures
            initial_seed_ids@.len() == 0 ==> r@.len() == 0,
            initial_seed_ids@.len() > 0 ==> r@ == self.common_children(
                *fuzzer_id,
                initial_seed_ids@,
                self.children_or_none(*fuzzer_id, initial_seed_ids@[0]).len() as int,
            ),
            forall|d: InputId|
                initial_seed_ids@.len() > 0 ==> (r@.contains(d) <==> self.common_to_all(
                    *fuzzer_id,
                    initial_seed_ids@,
                    d,
                )),
    {
        let c = *fuzzer_id;
        let mut r: Vec<InputId> = Vec::new();
        if initial_seed_ids.len() == 0 {
            return r;
        }
        let index = self.get_children_index();
        let first = match find_entry(index, c, initial_seed_ids[0]) {
            Some(i) => &index[i].children,
            None => {
                return r;
            },
        };
        let ghost seeds = initial_seed_ids@;
        let mut n: usize = 0;
        while n < first.len()
            invariant
                n <= first@.len(),
                c == *fuzzer_id,
                seeds == initial_seed_ids@,
                seeds.len() > 0,
                index@ == self.children_index(),
                first@ == self.children_or_none(c, seeds[0]),
                r@ == self.common_children(c, seeds, n as int),
            decreases first@.len() - n,
        {
            let d = first[n];
            let mut all = true;
            let mut i: usize = 0;
            while i < initial_seed_ids.len()
                invariant
                    i <= initial_seed_ids@.len(),
                    seeds == initial_seed_ids@,
                    index@ == self.children_index(),
                    all == (forall|j: int|
                        0 <= j < i ==> self.children_or_none(c, #[trigger] seeds[j]).contains(d)),
                decreases initial_seed_ids@.len() - i,
            {
                let listed = match find_entry(index, c, initial_seed_ids[i]) {
                    Some(e) => contains_id(&index[e].children, d),
                    None => false,
                };
                proof {
                    assert(listed == self.children_or_none(c, seeds[i as int]).contains(d));
                }
                if !listed {
                    all = false;
                }
                i = i + 1;
            }
            if all {
                r.push(d);
            }
            n = n + 1;
        }
        proof {
            assert forall|d: InputId| r@.contains(d) <==> self.common_to_all(c, seeds, d) by {
                self.lemma_common_children_is_intersection(c, seeds, first@.len() as int, d);
                assert(first@.take(first@.len() as int) == first@);
                if self.common_to_all(c, seeds, d) {
                    assert(self.children_or_none(c, seeds[0]).contains(d));
                }
            }
        }
        r
    }
}

} // verus!
