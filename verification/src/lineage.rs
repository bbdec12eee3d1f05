//! Which initial seeds an input descends from.
//!
//! A derived input names its parents by the ids that the fuzzer gave them.
//! Following these names from parent to parent leads to initial seeds; the
//! search marks every input it has seen, so a chain that runs into itself
//! ends.

use crate::custom_types::InputId;
use crate::inputs_database::InputsDatabase;
use crate::search::lemma_last_index;
use vstd::prelude::*;

verus! {

/// How many elements of `v` are `false`.
pub open spec fn count_false(v: Seq<bool>) -> nat
    decreases v.len(),
{
    if v.len() == 0 {
        0
    } else {
        count_false(v.drop_last()) + if v.last() {
            0nat
        } else {
            1nat
        }
    }
}

/// Setting an element that is `false` to `true` leaves one `false` less.
pub proof fn lemma_count_false_set(v: Seq<bool>, i: int)
    requires
        0 <= i < v.len(),
        !v[i],
    ensures
        count_false(v.update(i, true)) + 1 == count_false(v),
    decreases v.len(),
{
    if i == v.len() - 1 {
        assert(v.update(i, true).drop_last() == v.drop_last());
    } else {
        assert(v.update(i, true).drop_last() == v.drop_last().update(i, true));
        lemma_count_false_set(v.drop_last(), i);
    }
}

impl InputsDatabase {
    /// The derived input `x` names `y` as a parent: one of the ids in its
    /// list of parents is that of `y` in configuration `c`.
    pub open spec fn edge(&self, c: u32, x: InputId, y: InputId) -> bool {
        self.is_derived(x) && exists|k: int|
            0 <= k < self.inputs()[x.0 - 1].parents@.len() && self.resolve(
                c,
                #[trigger] self.inputs()[x.0 - 1].parents@[k],
            ) == Some(y)
    }

    /// Each input of `path` names the next as a parent.
    pub open spec fn is_path(&self, c: u32, path: Seq<InputId>) -> bool {
        path.len() >= 1 && forall|i: int|
            0 <= i < path.len() - 1 ==> self.edge(c, #[trigger] path[i], path[i + 1])
    }

    /// A chain of parents leads from `x` to `y`.
    pub open spec fn reaches(&self, c: u32, x: InputId, y: InputId) -> bool {
        exists|path: Seq<InputId>| #[trigger]
            self.is_path(c, path) && path[0] == x && path.last() == y
    }

    /// `y` is an initial seed that the derived input `x` descends from.
    pub open spec fn is_ancestor_seed(&self, c: u32, x: InputId, y: InputId) -> bool {
        self.is_derived(x) && self.is_seed(y) && self.reaches(c, x, y)
    }

    /// The initial seeds among the first `n` inputs that `x` descends from,
    /// in the order of their ids.
    pub open spec fn ancestor_seeds(&self, c: u32, x: InputId, n: int) -> Seq<InputId>
        decreases n,
    {
        if n <= 0 {
            Seq::empty()
        } else {
            let rest = self.ancestor_seeds(c, x, n - 1);
            if self.is_ancestor_seed(c, x, InputId(n as usize)) {
                rest.push(InputId(n as usize))
            } else {
                rest
            }
        }
    }

    /// Every marked input reaches only inputs that are marked or wait to be
    /// looked at.
    pub open spec fn closed_except(&self, c: u32, marked: Seq<bool>, work: Seq<usize>) -> bool {
        forall|i: int, y: InputId|
            0 <= i < marked.len() && marked[i] && #[trigger] self.edge(
                c,
                InputId((i + 1) as usize),
                y,
            ) ==> self.knows(y) && (marked[y.0 - 1] || work.contains((y.0 - 1) as usize))
    }

    /// An input reaches itself.
    pub proof fn lemma_reaches_self(&self, c: u32, x: InputId)
        ensures
            self.reaches(c, x, x),
    {
        let path = seq![x];
        assert(self.is_path(c, path) && path[0] == x && path.last() == x);
    }

    /// A chain of parents can be made longer by one parent.
    pub proof fn lemma_reaches_step(&self, c: u32, x: InputId, y: InputId, z: InputId)
        requires
            self.reaches(c, x, y),
            self.edge(c, y, z),
        ensures
            self.reaches(c, x, z),
    {
        let path = choose|path: Seq<InputId>| #[trigger]
            self.is_path(c, path) && path[0] == x && path.last() == y;
        let longer = path.push(z);
        assert forall|i: int| 0 <= i < longer.len() - 1 implies self.edge(
            c,
            #[trigger] longer[i],
            longer[i + 1],
        ) by {
            if i < path.len() - 1 {
                assert(longer[i] == path[i]);
                assert(longer[i + 1] == path[i + 1]);
            } else {
                assert(longer[i] == y);
            }
        }
        assert(self.is_path(c, longer) && longer[0] == x && longer.last() == z);
    }

    /// What a parent names is registered.
    pub proof fn lemma_edge_known(&self, c: u32, x: InputId, y: InputId)
        requires
            self.wf(),
            self.edge(c, x, y),
        ensures
            self.knows(y),
    {
        let k = choose|k: int|
            0 <= k < self.inputs()[x.0 - 1].parents@.len() && self.resolve(
                c,
                #[trigger] self.inputs()[x.0 - 1].parents@[k],
            ) == Some(y);
        let f = self.inputs()[x.0 - 1].parents@[k];
        lemma_last_index(
            self.inputs(),
            crate::inputs_database::is_input(c, f),
            self.inputs().len() as int,
        );
    }

    /// If the start of a chain is marked and marks are passed on to
    /// parents, every input of the chain is marked.
    pub proof fn lemma_path_marked(&self, c: u32, path: Seq<InputId>, marked: Seq<bool>, k: int)
        requires
            self.wf(),
            self.is_path(c, path),
            marked.len() == self.inputs().len(),
            self.knows(path[0]),
            marked[path[0].0 - 1],
            self.closed_except(c, marked, Seq::<usize>::empty()),
            0 <= k < path.len(),
        ensures
            self.knows(path[k]),
            marked[path[k].0 - 1],
        decreases k,
    {
        if k > 0 {
            self.lemma_path_marked(c, path, marked, k - 1);
            let i = path[k - 1].0 - 1;
            assert(self.edge(c, path[k - 1], path[k]));
            assert(InputId((i + 1) as usize) == path[k - 1]);
            assert(self.edge(c, InputId((i + 1) as usize), path[k]));
        }
    }

    /// The initial seeds that an input descends from, in the order of their
    /// ids: the seeds that a chain of parents leads to, the names of the
    /// parents read as names of configuration `fuzzer_configuration_id`. An
    /// initial seed descends from none, nor does an input that is not
    /// registered.
    pub fn get_initial_seed_parents_for(
        &self,
        input_id: &InputId,
        fuzzer_configuration_id: &u32,
    ) -> (r: Vec<InputId>)
        requires
            self.wf(),
        ensures
            forall|y: InputId|
                r@.contains(y) <==> self.is_ancestor_seed(*fuzzer_configuration_id, *input_id, y),
            forall|i: int, j: int| 0 <= i < j < r@.len() ==> r@[i].0 < r@[j].0,
            r@ == self.ancestor_seeds(
                *fuzzer_configuration_id,
                *input_id,
                self.inputs().len() as int,
            ),
            forall|i: int| 0 <= i < r@.len() ==> self.is_seed(#[trigger] r@[i]),
            self.is_seed(*input_id) ==> r@.len() == 0,
    {
        let c = *fuzzer_configuration_id;
        let x = *input_id;
        let mut r: Vec<InputId> = Vec::new();
        let derived = match self.get_meta(input_id) {
            Some(m) => !m.is_initial_seed,
            None => false,
        };
        if !derived {
            proof {
                self.lemma_no_ancestors(c, x, self.inputs().len() as int);
            }
            return r;
        }
        let n = self.input_count();
        let mut marked: Vec<bool> = Vec::new();
        while marked.len() < n
            invariant
                marked@.len() <= n,
                forall|i: int| 0 <= i < marked@.len() ==> !marked@[i],
            decreases n - marked@.len(),
        {
            marked.push(false);
        }
        let mut work: Vec<usize> = Vec::new();
        work.push(x.0 - 1);
        proof {
            self.lemma_reaches_self(c, x);
            assert(work@[0] == x.0 - 1);
        }
        while work.len() > 0
            invariant
                self.wf(),
                c == *fuzzer_configuration_id,
                n == self.inputs().len(),
                marked@.len() == n,
                self.is_derived(x),
                forall|j: int| 0 <= j < work@.len() ==> (#[trigger] work@[j]) < n,
                forall|j: int|
                    0 <= j < work@.len() ==> self.reaches(
                        c,
                        x,
                        InputId(((#[trigger] work@[j]) + 1) as usize),
                    ),
                forall|i: int|
                    0 <= i < n && #[trigger] marked@[i] ==> self.reaches(
                        c,
                        x,
                        InputId((i + 1) as usize),
                    ),
                self.closed_except(c, marked@, work@),
                marked@[x.0 - 1] || work@.contains((x.0 - 1) as usize),
            decreases count_false(marked@), work@.len(),
        {
            let ghost work_before = work@;
            let ghost marked_before = marked@;
            let v = work.pop().unwrap();
            let ghost rest = work@;
            proof {
                assert(work_before == rest.push(v));
                assert(work_before[rest.len() as int] == v);
            }
            if !marked[v] {
                let node = InputId(v + 1);
                let m = self.get_meta(&node).unwrap();
                if !m.is_initial_seed {
                    let mut k: usize = 0;
                    while k < m.parents.len()
                        invariant
                            self.wf(),
                            c == *fuzzer_configuration_id,
                            n == self.inputs().len(),
                            marked@ == marked_before,
                            marked@.len() == n,
                            v < n,
                            node == InputId((v + 1) as usize),
                            *m == self.inputs()[v as int],
                            self.is_derived(node),
                            self.reaches(c, x, node),
                            k <= m.parents@.len(),
                            rest.len() <= work@.len(),
                            work@.take(rest.len() as int) == rest,
                            forall|j: int| 0 <= j < work@.len() ==> (#[trigger] work@[j]) < n,
                            forall|j: int|
                                0 <= j < work@.len() ==> self.reaches(
                                    c,
                                    x,
                                    InputId(((#[trigger] work@[j]) + 1) as usize),
                                ),
                            forall|j: int|
                                0 <= j < k ==> (match self.resolve(c, #[trigger] m.parents@[j]) {
                                    Some(y) => self.knows(y) && (marked@[y.0 - 1]
                                        || work@.contains((y.0 - 1) as usize)),
                                    None => true,
                                }),
                        decreases m.parents@.len() - k,
                    {
                        let ghost work_mid = work@;
                        match self.find_input_id(fuzzer_configuration_id, &m.parents[k]) {
                            Some(y) => {
                                proof {
                                    assert(self.inputs()[node.0 - 1].parents@[k as int]
                                        == m.parents@[k as int]);
                                    assert(self.resolve(
                                        c,
                                        self.inputs()[node.0 - 1].parents@[k as int],
                                    ) == Some(y));
                                    assert(self.edge(c, node, y));
                                    self.lemma_reaches_step(c, x, node, y);
                                }
                                if !marked[y.0 - 1] {
                                    work.push(y.0 - 1);
                                    proof {
                                        assert(work@[work_mid.len() as int] == y.0 - 1);
                                        assert(work@.take(rest.len() as int) =~= rest);
                                    }
                                }
                            },
                            None => {},
                        }
                        proof {
                            assert forall|j: int| 0 <= j < k + 1 implies (match self.resolve(
                                c,
                                #[trigger] m.parents@[j],
                            ) {
                                Some(y) => self.knows(y) && (marked@[y.0 - 1] || work@.contains(
                                    (y.0 - 1) as usize,
                                )),
                                None => true,
                            }) by {
                                match self.resolve(c, m.parents@[j]) {
                                    Some(y) => {
                                        if j < k {
                                            if !marked@[y.0 - 1] {
                                                let i = choose|i: int|
                                                    0 <= i < work_mid.len() && work_mid[i] == (y.0
                                                        - 1) as usize;
                                                assert(work@[i] == work_mid[i]);
                                            }
                                        } else {
                                            if !marked@[y.0 - 1] {
                                                assert(work@[work_mid.len() as int] == (y.0
                                                    - 1) as usize);
                                            }
                                        }
                                    },
                                    None => {},
                                }
                            }
                        }
                        k = k + 1;
                    }
                }
                marked[v] = true;
                proof {
                    lemma_count_false_set(marked_before, v as int);
                    assert(marked@ == marked_before.update(v as int, true));
                    assert forall|u: usize| rest.contains(u) implies work@.contains(u) by {
                        let i = choose|i: int| 0 <= i < rest.len() && rest[i] == u;
                        assert(work@.take(rest.len() as int)[i] == work@[i]);
                    }
                    assert forall|u: usize| work_before.contains(u) implies u == v || rest.contains(
                        u,
                    ) by {
                        let i = choose|i: int| 0 <= i < work_before.len() && work_before[i] == u;
                        if i < rest.len() {
                            assert(rest[i] == u);
                        }
                    }
                    assert forall|i: int, y: InputId|
                        0 <= i < marked@.len() && marked@[i] && #[trigger] self.edge(
                            c,
                            InputId((i + 1) as usize),
                            y,
                        ) implies self.knows(y) && (marked@[y.0 - 1] || work@.contains(
                        (y.0 - 1) as usize,
                    )) by {
                        self.lemma_edge_known(c, InputId((i + 1) as usize), y);
                        if i == v {
                            let j = choose|j: int|
                                0 <= j < self.inputs()[node.0 - 1].parents@.len() && self.resolve(
                                    c,
                                    #[trigger] self.inputs()[node.0 - 1].parents@[j],
                                ) == Some(y);
                            assert(self.resolve(c, m.parents@[j]) == Some(y));
                        } else {
                            assert(marked_before[i]);
                            if !marked_before[y.0 - 1] {
                                assert(work_before.contains((y.0 - 1) as usize));
                            }
                        }
                    }
                    assert forall|i: int| 0 <= i < n && #[trigger] marked@[i] implies self.reaches(
                        c,
                        x,
                        InputId((i + 1) as usize),
                    ) by {
                        if i != v {
                            assert(marked_before[i]);
                        }
                    }
                    if !marked_before[x.0 - 1] {
                        assert(work_before.contains((x.0 - 1) as usize));
                    }
                }
            } else {
                proof {
                    assert forall|u: usize| work_before.contains(u) implies u == v || rest.contains(
                        u,
                    ) by {
                        let i = choose|i: int| 0 <= i < work_before.len() && work_before[i] == u;
                        if i < rest.len() {
                            assert(rest[i] == u);
                        }
                    }
                    assert forall|i: int, y: InputId|
                        0 <= i < marked@.len() && marked@[i] && #[trigger] self.edge(
                            c,
                            InputId((i + 1) as usize),
                            y,
                        ) implies self.knows(y) && (marked@[y.0 - 1] || work@.contains(
                        (y.0 - 1) as usize,
                    )) by {
                        if !marked@[y.0 - 1] {
                            assert(work_before.contains((y.0 - 1) as usize));
                        }
                    }
                    if !marked@[x.0 - 1] {
                        assert(work_before.contains((x.0 - 1) as usize));
                    }
                }
            }
        }
        proof {
            assert(work@ =~= Seq::<usize>::empty());
            assert forall|y: InputId| self.knows(y) implies ((marked@[y.0 - 1] && self.inputs()[y.0
                - 1].is_initial_seed) <==> self.is_ancestor_seed(c, x, y)) by {
                if marked@[y.0 - 1] {
                    assert(InputId(((y.0 - 1) + 1) as usize) == y);
                }
                if self.is_ancestor_seed(c, x, y) {
                    let path = choose|path: Seq<InputId>| #[trigger]
                        self.is_path(c, path) && path[0] == x && path.last() == y;
                    self.lemma_path_marked(c, path, marked@, path.len() - 1);
                }
            }
        }
        let mut i: usize = 0;
        while i < n
            invariant
                i <= n,
                n == self.inputs().len(),
                marked@.len() == n,
                forall|y: InputId|
                    self.knows(y) ==> ((marked@[y.0 - 1] && self.inputs()[y.0
                        - 1].is_initial_seed) <==> self.is_ancestor_seed(c, x, y)),
                r@ == self.ancestor_seeds(c, x, i as int),
                forall|y: InputId|
                    r@.contains(y) <==> (1 <= y.0 <= i && marked@[y.0 - 1] && self.inputs()[y.0
                        - 1].is_initial_seed),
                forall|a: int| 0 <= a < r@.len() ==> (#[trigger] r@[a]).0 <= i,
                forall|a: int, b: int| 0 <= a < b < r@.len() ==> r@[a].0 < r@[b].0,
            decreases n - i,
        {
            let id = InputId(i + 1);
            let m = self.get_meta(&id).unwrap();
            let ghost before = r@;
            if marked[i] && m.is_initial_seed {
                r.push(id);
                proof {
                    assert(r@[before.len() as int] == id);
                    assert forall|y: InputId| r@.contains(y) <==> (1 <= y.0 <= i + 1 && marked@[y.0
                        - 1] && self.inputs()[y.0 - 1].is_initial_seed) by {
                        if r@.contains(y) {
                            let a = choose|a: int| 0 <= a < r@.len() && r@[a] == y;
                            if a < before.len() {
                                assert(before[a] == y);
                                assert(before.contains(y));
                            }
                        }
                        if 1 <= y.0 <= i + 1 && marked@[y.0 - 1] && self.inputs()[y.0
                            - 1].is_initial_seed {
                            if y.0 <= i {
                                assert(before.contains(y));
                                let a = choose|a: int| 0 <= a < before.len() && before[a] == y;
                                assert(r@[a] == y);
                            } else {
                                assert(y == id);
                            }
                        }
                    }
                }
            }
            i = i + 1;
        }
        proof {
            assert forall|i: int| 0 <= i < r@.len() implies self.is_seed(#[trigger] r@[i]) by {
                assert(r@.contains(r@[i]));
            }
            assert forall|y: InputId| r@.contains(y) <==> self.is_ancestor_seed(c, x, y) by {
                if r@.contains(y) {
                    assert(marked@[y.0 - 1]);
                    assert(InputId(((y.0 - 1) + 1) as usize) == y);
                }
                if self.is_ancestor_seed(c, x, y) {
                    let path = choose|path: Seq<InputId>| #[trigger]
                        self.is_path(c, path) && path[0] == x && path.last() == y;
                    self.lemma_path_marked(c, path, marked@, path.len() - 1);
                }
            }
        }
        r
    }

    /// An input that is not a registered derived input descends from no
    /// seed.
    pub proof fn lemma_no_ancestors(&self, c: u32, x: InputId, n: int)
        requires
            !self.is_derived(x),
        ensures
            self.ancestor_seeds(c, x, n) == Seq::<InputId>::empty(),
        decreases n,
    {
        if n > 0 {
            self.lemma_no_ancestors(c, x, n - 1);
        }
    }

    /// The initial seeds that an input descends from.
    pub fn get_parents_for(&self, input_id: &InputId, fuzzer_configuration_id: &u32) -> (r: Vec<
        InputId,
    >)
        requires
            self.wf(),
        ensures
            forall|y: InputId|
                r@.contains(y) <==> self.is_ancestor_seed(*fuzzer_configuration_id, *input_id, y),
            forall|i: int, j: int| 0 <= i < j < r@.len() ==> r@[i].0 < r@[j].0,
            r@ == self.ancestor_seeds(
                *fuzzer_configuration_id,
                *input_id,
                self.inputs().len() as int,
            ),
    {
        self.get_initial_seed_parents_for(input_id, fuzzer_configuration_id)
    }
}

} // verus!
