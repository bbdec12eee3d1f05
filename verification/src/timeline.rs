//! The timeline of the inputs that descend from chosen initial seeds.
//!
//! The timeline is a graph. Its nodes are the chosen seeds and the inputs
//! that descend from all of them; its edges lead from each parent of such
//! an input to the input. Times are shown relative to the last chosen seed,
//! which is placed at the anchor.

use crate::app_state::AppState;
use crate::custom_types::InputId;
use crate::custom_types::InputMeta;
use crate::inputs_database::InputsDatabase;
use crate::paths::string_from_chars;
use crate::queries::is_seed_named;
use crate::search::first_index;
use crate::text::append_chars;
use crate::text::decimal;
use crate::text::numbered;
use crate::text::slice_of;
use crate::text::to_chars;
use vstd::prelude::*;

verus! {

/// The seeds of a configuration whose descendants are asked for.
#[derive(Debug)]
pub struct TimelineRequest {
    pub fuzzer_configuration_id: u32,
    pub initial_seed_ids: Vec<u32>,
}

/// A node of the timeline.
#[derive(Debug)]
pub struct TimelineNode {
    pub id: String,
    pub name: String,
    pub x_executed_on: i64,
    pub y_fuzzer_coverage: u32,
    pub meta_data: String,
    pub multiple: bool,
}

/// An edge of the timeline, from a parent to an input derived from it.
#[derive(Debug)]
pub struct TimelineEdge {
    pub source: String,
    pub target: String,
}

/// The timeline.
#[derive(Debug)]
pub struct TimelineResponse {
    pub nodes: Vec<TimelineNode>,
    pub edges: Vec<TimelineEdge>,
}

/// Mathematical content of a [`TimelineNode`].
pub struct NodeView {
    pub id: Seq<char>,
    pub name: Seq<char>,
    pub x_executed_on: i64,
    pub y_fuzzer_coverage: u32,
    pub meta_data: Seq<char>,
    pub multiple: bool,
}

/// Mathematical content of a [`TimelineEdge`].
pub struct EdgeView {
    pub source: Seq<char>,
    pub target: Seq<char>,
}

/// Mathematical content of a [`TimelineResponse`].
pub struct TimelineView {
    pub nodes: Seq<NodeView>,
    pub edges: Seq<EdgeView>,
}

impl View for TimelineNode {
    type V = NodeView;

    open spec fn view(&self) -> NodeView {
        NodeView {
            id: self.id@,
            name: self.name@,
            x_executed_on: self.x_executed_on,
            y_fuzzer_coverage: self.y_fuzzer_coverage,
            meta_data: self.meta_data@,
            multiple: self.multiple,
        }
    }
}

impl View for TimelineEdge {
    type V = EdgeView;

    open spec fn view(&self) -> EdgeView {
        EdgeView { source: self.source@, target: self.target@ }
    }
}

/// The mathematical content of a list of nodes.
pub open spec fn node_views(nodes: Seq<TimelineNode>) -> Seq<NodeView> {
    Seq::new(nodes.len(), |k: int| nodes[k]@)
}

/// The mathematical content of a list of edges.
pub open spec fn edge_views(edges: Seq<TimelineEdge>) -> Seq<EdgeView> {
    Seq::new(edges.len(), |k: int| edges[k]@)
}

impl View for TimelineResponse {
    type V = TimelineView;

    open spec fn view(&self) -> TimelineView {
        TimelineView { nodes: node_views(self.nodes@), edges: edge_views(self.edges@) }
    }
}

impl TimelineResponse {
    /// The timeline without nodes and edges.
    pub fn new() -> (r: Self)
        ensures
            r@.nodes.len() == 0,
            r@.edges.len() == 0,
    {
        TimelineResponse { nodes: Vec::new(), edges: Vec::new() }
    }
}

/// The label `seed-N`.
pub open spec fn seed_label(n: nat) -> Seq<char> {
    "seed-"@ + decimal(n)
}

/// The label `initial seed-N`.
pub open spec fn initial_label(n: nat) -> Seq<char> {
    "initial seed-"@ + decimal(n)
}

/// The node of a chosen seed: it stands at the anchor and has no
/// coverage.
pub open spec fn seed_node(f: u32, anchor: i64) -> NodeView {
    NodeView {
        id: seed_label(f as nat),
        name: seed_label(f as nat),
        x_executed_on: anchor,
        y_fuzzer_coverage: 0,
        meta_data: initial_label(f as nat),
        multiple: false,
    }
}

/// The nodes of the first `n` chosen seeds.
pub open spec fn seed_nodes(seeds: Seq<u32>, anchor: i64, n: int) -> Seq<NodeView>
    decreases n,
{
    if n <= 0 {
        Seq::empty()
    } else {
        seed_nodes(seeds, anchor, n - 1).push(seed_node(seeds[n - 1], anchor))
    }
}

/// The edge from the parent that input `d` calls `p`, and the label of the
/// parent. A parent that is a seed with descendants is shown by the id that
/// the fuzzer gave it, any other parent by its own id. A name that is the
/// name of no input gives no edge.
pub open spec fn parent_link(db: &InputsDatabase, c: u32, d: InputId, p: u32) -> Option<
    (EdgeView, Seq<char>),
> {
    if db.children_of(c, p) is Some {
        Some(
            (
                EdgeView { source: seed_label(p as nat), target: seed_label(d.0 as nat) },
                initial_label(p as nat) + ", "@,
            ),
        )
    } else {
        match db.resolve(c, p) {
            Some(y) => Some(
                (
                    EdgeView { source: seed_label(y.0 as nat), target: seed_label(d.0 as nat) },
                    seed_label(p as nat) + ", "@,
                ),
            ),
            None => None,
        }
    }
}

/// The edges from the first `n` parents of input `d`, and their labels, one
/// after the other.
pub open spec fn parent_links(db: &InputsDatabase, c: u32, d: InputId, parents: Seq<u32>, n: int)
    -> (Seq<EdgeView>, Seq<char>)
    decreases n,
{
    if n <= 0 {
        (Seq::empty(), Seq::empty())
    } else {
        let rest = parent_links(db, c, d, parents, n - 1);
        match parent_link(db, c, d, parents[n - 1]) {
            Some((edge, label)) => (rest.0.push(edge), rest.1 + label),
            None => rest,
        }
    }
}

/// A list of labels without the separator at its end.
pub open spec fn without_separator(labels: Seq<char>) -> Seq<char> {
    if labels.len() >= 2 {
        labels.take(labels.len() - 2)
    } else {
        Seq::empty()
    }
}

/// When the input `m` is shown: its time of execution, moved as far as the
/// last chosen seed is moved to stand at the anchor.
pub open spec fn shown_time(m: InputMeta, seed_time: i64, anchor: i64) -> int {
    m.executed_on - (seed_time - anchor)
}

/// The node of the input `d`.
pub open spec fn child_node(db: &InputsDatabase, c: u32, d: InputId, seed_time: i64, anchor: i64)
    -> NodeView {
    let m = db.inputs()[d.0 - 1];
    NodeView {
        id: seed_label(d.0 as nat),
        name: seed_label(m.fuzz_input_id as nat),
        x_executed_on: shown_time(m, seed_time, anchor) as i64,
        y_fuzzer_coverage: m.fuzzer_coverage,
        meta_data: without_separator(
            parent_links(db, c, d, m.parents@, m.parents@.len() as int).1,
        ),
        multiple: m.parents@.len() > 1,
    }
}

/// The timeline `t` with the nodes and edges of the first `n` inputs of
/// `list`; `None` if the time of one of them cannot be shown. An input that
/// is not registered is passed over.
pub open spec fn with_children(
    db: &InputsDatabase,
    c: u32,
    list: Seq<InputId>,
    seed_time: i64,
    anchor: i64,
    t: TimelineView,
    n: int,
) -> Option<TimelineView>
    decreases n,
{
    if n <= 0 {
        Some(t)
    } else {
        match with_children(db, c, list, seed_time, anchor, t, n - 1) {
            None => None,
            Some(rest) => {
                let d = list[n - 1];
                if !db.knows(d) {
                    Some(rest)
                } else {
                    let m = db.inputs()[d.0 - 1];
                    let at = shown_time(m, seed_time, anchor);
                    if at < i64::MIN || at > i64::MAX {
                        None
                    } else {
                        Some(
                            TimelineView {
                                nodes: rest.nodes.push(child_node(db, c, d, seed_time, anchor)),
                                edges: rest.edges + parent_links(
                                    db,
                                    c,
                                    d,
                                    m.parents@,
                                    m.parents@.len() as int,
                                ).0,
                            },
                        )
                    }
                }
            },
        }
    }
}

/// Each of the first `n` chosen ids is that of an initial seed of
/// configuration `c`.
pub open spec fn seeds_known(db: &InputsDatabase, c: u32, seeds: Seq<u32>, n: int) -> bool {
    forall|k: int|
        0 <= k < n ==> first_index(db.inputs(), is_seed_named(c, #[trigger] seeds[k]), 0) is Some
}

/// The time of execution of the first seed of configuration `c` that the
/// fuzzer calls `f`.
pub open spec fn seed_time(db: &InputsDatabase, c: u32, f: u32) -> i64 {
    db.inputs()[first_index(db.inputs(), is_seed_named(c, f), 0)->0].executed_on
}

/// The timeline of the inputs that descend from all of `seeds`. There is
/// none if one of the ids is that of no seed, if the index lists no
/// descendants for the first seed, or if a time cannot be shown.
pub open spec fn timeline(db: &InputsDatabase, c: u32, seeds: Seq<u32>, anchor: i64) -> Option<
    TimelineView,
> {
    if !seeds_known(db, c, seeds, seeds.len() as int) {
        None
    } else if seeds.len() == 0 {
        Some(TimelineView { nodes: Seq::empty(), edges: Seq::empty() })
    } else if db.children_of(c, seeds[0]) is None {
        None
    } else {
        let list = db.common_children(c, seeds, db.children_or_none(c, seeds[0]).len() as int);
        with_children(
            db,
            c,
            list,
            seed_time(db, c, seeds.last()),
            anchor,
            TimelineView {
                nodes: seed_nodes(seeds, anchor, seeds.len() as int),
                edges: Seq::empty(),
            },
            list.len() as int,
        )
    }
}

/// The text of `chars`.
fn text_of(chars: &Vec<char>) -> (r: String)
    ensures
        r@ == chars@,
{
    string_from_chars(chars.as_slice())
}

/// The edges from the parents of input `d` and the labels of the parents.
fn link_parents(db: &InputsDatabase, c: u32, d: InputId, m: &InputMeta, edges: &mut Vec<
    TimelineEdge,
>) -> (labels: Vec<char>)
    requires
        db.wf(),
    ensures
        edge_views(final(edges)@) == edge_views(old(edges)@) + parent_links(
            db,
            c,
            d,
            m.parents@,
            m.parents@.len() as int,
        ).0,
        labels@ == parent_links(db, c, d, m.parents@, m.parents@.len() as int).1,
{
    let mut labels: Vec<char> = Vec::new();
    let separator = to_chars(", ");
    let mut k: usize = 0;
    proof {
        assert(edge_views(edges@) =~= edge_views(old(edges)@) + parent_links(
            db,
            c,
            d,
            m.parents@,
            0,
        ).0);
    }
    while k < m.parents.len()
        invariant
            db.wf(),
            k <= m.parents@.len(),
            separator@ == ", "@,
            edge_views(edges@) == edge_views(old(edges)@) + parent_links(
                db,
                c,
                d,
                m.parents@,
                k as int,
            ).0,
            labels@ == parent_links(db, c, d, m.parents@, k as int).1,
        decreases m.parents@.len() - k,
    {
        let p = m.parents[k];
        let ghost before = edges@;
        let ghost labels_before = labels@;
        let ghost so_far = parent_links(db, c, d, m.parents@, k as int);
        let source: Option<(Vec<char>, Vec<char>)> = if db.has_children_for(&c, &p) {
            Some((numbered("seed-", p as u64), numbered("initial seed-", p as u64)))
        } else {
            match db.find_input_id(&c, &p) {
                Some(y) => Some((numbered("seed-", y.0 as u64), numbered("seed-", p as u64))),
                None => None,
            }
        };
        match source {
            Some((from, label)) => {
                let target = numbered("seed-", d.0 as u64);
                let edge = TimelineEdge { source: text_of(&from), target: text_of(&target) };
                let ghost shown = edge@;
                edges.push(edge);
                append_chars(&mut labels, label.as_slice());
                append_chars(&mut labels, separator.as_slice());
                proof {
                    let link = parent_link(db, c, d, p)->0;
                    assert(shown == link.0);
                    assert(label@ + separator@ == link.1);
                    assert(labels@ =~= labels_before + link.1);
                    assert(edge_views(edges@) =~= edge_views(before).push(shown));
                    assert(edge_views(edges@) =~= edge_views(old(edges)@) + so_far.0.push(shown));
                }
            },
            None => {},
        }
        k = k + 1;
    }
    labels
}

/// The timeline of the inputs that descend from all of the chosen seeds:
/// a node for each chosen seed, a node for each such input, and an edge from
/// each parent of such an input to the input.
pub fn get_initial_seed_timeline(request: &TimelineRequest, data: &AppState, anchor: i64) -> (r:
    Option<TimelineResponse>)
    requires
        data.inputs().wf(),
    ensures
        match r {
            Some(response) => timeline(
                &data.inputs(),
                request.fuzzer_configuration_id,
                request.initial_seed_ids@,
                anchor,
            ) == Some(response@),
            None => timeline(
                &data.inputs(),
                request.fuzzer_configuration_id,
                request.initial_seed_ids@,
                anchor,
            ) is None,
        },
{
    let db = data.get_inputs_db();
    let c = request.fuzzer_configuration_id;
    let seeds = &request.initial_seed_ids;
    let mut response = TimelineResponse::new();
    let mut last_time: i64 = 0;
    let mut k: usize = 0;
    proof {
        assert(node_views(response.nodes@) =~= seed_nodes(seeds@, anchor, 0));
        assert(edge_views(response.edges@) =~= Seq::<EdgeView>::empty());
    }
    while k < seeds.len()
        invariant
            k <= seeds@.len(),
            *db == data.inputs(),
            c == request.fuzzer_configuration_id,
            seeds@ == request.initial_seed_ids@,
            seeds_known(db, c, seeds@, k as int),
            k > 0 ==> last_time == seed_time(db, c, seeds@[k - 1]),
            node_views(response.nodes@) == seed_nodes(seeds@, anchor, k as int),
            response.edges@.len() == 0,
        decreases seeds@.len() - k,
    {
        let f = seeds[k];
        match db.find_seed(&c, &f) {
            Some(m) => {
                last_time = m.executed_on;
                let label = numbered("seed-", f as u64);
                let ghost before = response.nodes@;
                let node = TimelineNode {
                    id: text_of(&label),
                    name: text_of(&label),
                    x_executed_on: anchor,
                    y_fuzzer_coverage: 0,
                    meta_data: text_of(&numbered("initial seed-", f as u64)),
                    multiple: false,
                };
                let ghost shown = node@;
                response.nodes.push(node);
                proof {
                    assert(node_views(response.nodes@) =~= node_views(before).push(shown));
                }
            },
            None => {
                proof {
                    assert(first_index(db.inputs(), is_seed_named(c, seeds@[k as int]), 0) is None);
                }
                return None;
            },
        }
        k = k + 1;
    }
    if seeds.len() == 0 {
        proof {
            assert(response@.nodes =~= Seq::<NodeView>::empty());
            assert(response@.edges =~= Seq::<EdgeView>::empty());
        }
        return Some(response);
    }
    if !db.has_children_for(&c, &seeds[0]) {
        return None;
    }
    let list = db.get_all_children_input_ids_for(&c, seeds);
    let ghost first = TimelineView {
        nodes: seed_nodes(seeds@, anchor, seeds@.len() as int),
        edges: Seq::empty(),
    };
    proof {
        assert(edge_views(response.edges@) =~= Seq::<EdgeView>::empty());
        assert(last_time == seed_time(db, c, seeds@.last()));
        assert(timeline(db, c, seeds@, anchor) == with_children(
            db,
            c,
            list@,
            last_time,
            anchor,
            first,
            list@.len() as int,
        ));
    }
    let mut n: usize = 0;
    while n < list.len()
        invariant
            n <= list@.len(),
            *db == data.inputs(),
            db.wf(),
            c == request.fuzzer_configuration_id,
            seeds@ == request.initial_seed_ids@,
            timeline(db, c, seeds@, anchor) == with_children(
                db,
                c,
                list@,
                last_time,
                anchor,
                first,
                list@.len() as int,
            ),
            with_children(db, c, list@, last_time, anchor, first, n as int) == Some(response@),
        decreases list@.len() - n,
    {
        let d = list[n];
        match db.get_meta(&d) {
            Some(m) => {
                let at: i128 = (m.executed_on as i128) - ((last_time as i128) - (anchor as i128));
                if at < i64::MIN as i128 || at > i64::MAX as i128 {
                    proof {
                        lemma_with_children_fails(
                            db,
                            c,
                            list@,
                            last_time,
                            anchor,
                            first,
                            n + 1,
                            list@.len() as int,
                        );
                    }
                    return None;
                }
                let ghost nodes_before = response.nodes@;
                let labels = link_parents(db, c, d, m, &mut response.edges);
                let count = labels.len();
                let kept = if count >= 2 {
                    slice_of(labels.as_slice(), 0, count - 2)
                } else {
                    slice_of(labels.as_slice(), 0, 0)
                };
                proof {
                    assert(kept@ =~= without_separator(labels@));
                }
                let node = TimelineNode {
                    id: text_of(&numbered("seed-", d.0 as u64)),
                    name: text_of(&numbered("seed-", m.fuzz_input_id as u64)),
                    x_executed_on: at as i64,
                    y_fuzzer_coverage: m.fuzzer_coverage,
                    meta_data: string_from_chars(kept),
                    multiple: m.parents.len() > 1,
                };
                let ghost shown = node@;
                response.nodes.push(node);
                proof {
                    assert(node_views(response.nodes@) =~= node_views(nodes_before).push(shown));
                    assert(shown == child_node(db, c, d, last_time, anchor));
                }
            },
            None => {},
        }
        n = n + 1;
    }
    Some(response)
}

/// A timeline that cannot be built for some inputs cannot be built for
/// more of them.
pub proof fn lemma_with_children_fails(
    db: &InputsDatabase,
    c: u32,
    list: Seq<InputId>,
    seed_time: i64,
    anchor: i64,
    t: TimelineView,
    n: int,
    more: int,
)
    requires
        0 <= n <= more,
        with_children(db, c, list, seed_time, anchor, t, n) is None,
    ensures
        with_children(db, c, list, seed_time, anchor, t, more) is None,
    decreases more - n,
{
    if n < more {
        lemma_with_children_fails(db, c, list, seed_time, anchor, t, n, more - 1);
    }
}

} // verus!
