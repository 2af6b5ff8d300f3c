//! The embedded property graph: nodes and edges with string properties,
//! forward and backward adjacency indices, breadth-first traversal,
//! shortest paths, property queries, statistics, and a canonical text export.

use vstd::prelude::*;

use crate::numerals::{dec_digits, lemma_dec_digits_injective, u64_to_dec};
use crate::props::{prop_keys_unique, prop_matches, PropMap};
use crate::text::{append_escaped, escape_quotes, lemma_str_lt_connected, str_le, str_less, str_lt};
use vstd::seq_lib::lemma_seq_contains_after_push;
use vstd::set_lib::{lemma_int_range, lemma_len_subset, set_int_range};

use std::collections::VecDeque;

verus! {

/// A uniquely identified, labeled entity.
pub struct GraphNode {
    pub id: String,
    pub label: String,
    pub properties: PropMap,
}

/// A directed, labeled relationship between two nodes.
pub struct GraphEdge {
    pub id: String,
    pub from: String,
    pub to: String,
    pub relationship: String,
    pub properties: PropMap,
}

/// A start-to-end walk: nodes visited, edges taken, and the hop count.
pub struct GraphPath {
    pub nodes: Vec<GraphNode>,
    pub edges: Vec<GraphEdge>,
    pub length: usize,
}

/// What a graph query returns.
pub struct GraphQueryResult {
    pub nodes: Vec<GraphNode>,
    pub edges: Vec<GraphEdge>,
    pub paths: Vec<GraphPath>,
}

/// An edge endpoint named a node id that the graph does not hold.
#[derive(Clone, Copy, Debug, PartialEq, Eq, Structural)]
pub struct ReferentialIntegrityError;

/// The abstract value of a node.
#[verifier::ext_equal]
pub ghost struct NodeView {
    pub id: Seq<char>,
    pub label: Seq<char>,
    pub props: Seq<(Seq<char>, Seq<char>)>,
}

/// The abstract value of an edge.
#[verifier::ext_equal]
pub ghost struct EdgeView {
    pub id: Seq<char>,
    pub from: Seq<char>,
    pub to: Seq<char>,
    pub relationship: Seq<char>,
    pub props: Seq<(Seq<char>, Seq<char>)>,
}

impl View for GraphNode {
    type V = NodeView;

    open spec fn view(&self) -> NodeView {
        NodeView { id: self.id@, label: self.label@, props: self.properties@ }
    }
}

impl View for GraphEdge {
    type V = EdgeView;

    open spec fn view(&self) -> EdgeView {
        EdgeView {
            id: self.id@,
            from: self.from@,
            to: self.to@,
            relationship: self.relationship@,
            props: self.properties@,
        }
    }
}

/// The abstract value of the whole graph: node and edge records in insertion
/// order, each edge's endpoint indices, and the two adjacency indices.
#[verifier::ext_equal]
pub ghost struct GraphView {
    pub nodes: Seq<NodeView>,
    pub edges: Seq<EdgeView>,
    pub ends: Seq<(usize, usize)>,
    pub out: Seq<Seq<usize>>,
    pub inc: Seq<Seq<usize>>,
}

/// Total length of all adjacency lists.
pub open spec fn sum_lens(lists: Seq<Seq<usize>>) -> nat
    decreases lists.len(),
{
    if lists.len() == 0 {
        0
    } else {
        lists[0].len() + sum_lens(lists.drop_first())
    }
}

proof fn lemma_sum_lens_push(lists: Seq<Seq<usize>>, l: Seq<usize>)
    ensures
        sum_lens(lists.push(l)) == sum_lens(lists) + l.len(),
    decreases lists.len(),
{
    if lists.len() == 0 {
        assert(lists.push(l).drop_first() =~= Seq::<Seq<usize>>::empty());
        assert(lists.push(l)[0] == l);
        assert(sum_lens(Seq::<Seq<usize>>::empty()) == 0);
        assert(sum_lens(lists.push(l)) == l.len() + sum_lens(lists.push(l).drop_first()));
        assert(sum_lens(lists) == 0);
    } else {
        lemma_sum_lens_push(lists.drop_first(), l);
        assert(lists.push(l).drop_first() =~= lists.drop_first().push(l));
        assert(lists.push(l)[0] == lists[0]);
        assert(sum_lens(lists.push(l)) == lists[0].len() + sum_lens(lists.drop_first().push(l)));
        assert(sum_lens(lists) == lists[0].len() + sum_lens(lists.drop_first()));
    }
}

proof fn lemma_sum_lens_update(lists: Seq<Seq<usize>>, i: int, l: Seq<usize>)
    requires
        0 <= i < lists.len(),
    ensures
        sum_lens(lists.update(i, l)) == sum_lens(lists) + l.len() - lists[i].len(),
    decreases lists.len(),
{
    if i == 0 {
        assert(lists.update(0, l).drop_first() =~= lists.drop_first());
        assert(lists.update(0, l)[0] == l);
        assert(sum_lens(lists.update(0, l)) == l.len() + sum_lens(lists.drop_first()));
        assert(sum_lens(lists) == lists[0].len() + sum_lens(lists.drop_first()));
    } else {
        lemma_sum_lens_update(lists.drop_first(), i - 1, l);
        assert(lists.update(i, l).drop_first() =~= lists.drop_first().update(i - 1, l));
        assert(lists.update(i, l)[0] == lists[0]);
        assert(lists.drop_first()[i - 1] == lists[i]);
        assert(sum_lens(lists.update(i, l)) == lists[0].len() + sum_lens(
            lists.drop_first().update(i - 1, l),
        ));
        assert(sum_lens(lists) == lists[0].len() + sum_lens(lists.drop_first()));
    }
}

/// Some node holds the id.
pub open spec fn has_node(g: GraphView, id: Seq<char>) -> bool {
    exists|i: int| 0 <= i < g.nodes.len() && g.nodes[i].id == id
}

/// The index of the node holding the id (well defined when ids are unique).
pub open spec fn node_idx(g: GraphView, id: Seq<char>) -> int {
    choose|i: int| 0 <= i < g.nodes.len() && g.nodes[i].id == id
}

/// The edge record at `e` is consistent with the node arena, the endpoint
/// table, both adjacency indices, and the identifier scheme.
pub open spec fn edge_wf(g: GraphView, e: int) -> bool {
    &&& (g.ends[e].0 as int) < g.nodes.len()
    &&& (g.ends[e].1 as int) < g.nodes.len()
    &&& g.edges[e].from == g.nodes[g.ends[e].0 as int].id
    &&& g.edges[e].to == g.nodes[g.ends[e].1 as int].id
    &&& g.edges[e].id == dec_digits(e as nat)
    &&& prop_keys_unique(g.edges[e].props)
    &&& g.out[g.ends[e].0 as int].contains(e as usize)
    &&& g.inc[g.ends[e].1 as int].contains(e as usize)
}

/// Entry `k` of the outgoing (resp. incoming) list of node `n` names an edge
/// that really leaves (resp. enters) `n`.
pub open spec fn out_entry_wf(g: GraphView, n: int, k: int) -> bool {
    &&& (g.out[n][k] as int) < g.edges.len()
    &&& (g.ends[g.out[n][k] as int].0 as int) == n
}

pub open spec fn inc_entry_wf(g: GraphView, n: int, k: int) -> bool {
    &&& (g.inc[n][k] as int) < g.edges.len()
    &&& (g.ends[g.inc[n][k] as int].1 as int) == n
}

/// The graph's internal invariant.
pub open spec fn g_wf(g: GraphView) -> bool {
    &&& g.out.len() == g.nodes.len()
    &&& g.inc.len() == g.nodes.len()
    &&& g.ends.len() == g.edges.len()
    &&& (forall|i: int, j: int| 0 <= i < j < g.nodes.len() ==> g.nodes[i].id != g.nodes[j].id)
    &&& (forall|i: int| 0 <= i < g.nodes.len() ==> prop_keys_unique(#[trigger] g.nodes[i].props))
    &&& (forall|e: int| 0 <= e < g.edges.len() ==> edge_wf(g, e))
    &&& (forall|n: int, k: int|
        0 <= n < g.out.len() && 0 <= k < g.out[n].len() ==> out_entry_wf(g, n, k))
    &&& (forall|n: int, k: int|
        0 <= n < g.inc.len() && 0 <= k < g.inc[n].len() ==> inc_entry_wf(g, n, k))
    &&& (forall|n: int, k1: int, k2: int|
        0 <= n < g.out.len() && 0 <= k1 < k2 < g.out[n].len() ==> g.out[n][k1] < g.out[n][k2])
    &&& (forall|n: int, k1: int, k2: int|
        0 <= n < g.inc.len() && 0 <= k1 < k2 < g.inc[n].len() ==> g.inc[n][k1] < g.inc[n][k2])
    &&& sum_lens(g.out) == g.edges.len()
}

/// What `add_node` does: overwrite in place when the id exists, else append
/// the node with empty adjacency lists. Edges are never touched.
pub open spec fn add_node_post(
    g0: GraphView,
    g1: GraphView,
    id: Seq<char>,
    label: Seq<char>,
    props: Seq<(Seq<char>, Seq<char>)>,
) -> bool {
    &&& g1.edges == g0.edges
    &&& g1.ends == g0.ends
    &&& (if has_node(g0, id) {
        &&& g1.nodes == g0.nodes.update(node_idx(g0, id), NodeView { id, label, props })
        &&& g1.out == g0.out
        &&& g1.inc == g0.inc
    } else {
        &&& g1.nodes == g0.nodes.push(NodeView { id, label, props })
        &&& g1.out == g0.out.push(Seq::empty())
        &&& g1.inc == g0.inc.push(Seq::empty())
    })
}

/// What `add_edge` does: when both endpoints exist, append an edge with the
/// next identifier and register it in both adjacency indices; otherwise fail
/// and change nothing.
pub open spec fn add_edge_post(
    g0: GraphView,
    g1: GraphView,
    from: Seq<char>,
    to: Seq<char>,
    rel: Seq<char>,
    props: Seq<(Seq<char>, Seq<char>)>,
    r: Result<String, ReferentialIntegrityError>,
) -> bool {
    if has_node(g0, from) && has_node(g0, to) {
        &&& r is Ok
        &&& r->Ok_0@ == dec_digits(g0.edges.len())
        &&& ({
            let s = node_idx(g0, from);
            let t = node_idx(g0, to);
            let e = g0.edges.len() as int;
            &&& g1.nodes == g0.nodes
            &&& g1.edges == g0.edges.push(
                EdgeView { id: dec_digits(e as nat), from, to, relationship: rel, props },
            )
            &&& g1.ends == g0.ends.push((s as usize, t as usize))
            &&& g1.out == g0.out.update(s, g0.out[s].push(e as usize))
            &&& g1.inc == g0.inc.update(t, g0.inc[t].push(e as usize))
        })
    } else {
        &&& r is Err
        &&& g1 == g0
    }
}

/// The graph store: node and edge arenas plus both adjacency indices.
pub struct GraphDatabase {
    nodes: Vec<GraphNode>,
    edges: Vec<GraphEdge>,
    ends: Vec<(usize, usize)>,
    outgoing: Vec<Vec<usize>>,
    incoming: Vec<Vec<usize>>,
}

impl View for GraphDatabase {
    type V = GraphView;

    closed spec fn view(&self) -> GraphView {
        GraphView {
            nodes: self.nodes@.map_values(|n: GraphNode| n@),
            edges: self.edges@.map_values(|e: GraphEdge| e@),
            ends: self.ends@,
            out: self.outgoing@.map_values(|v: Vec<usize>| v@),
            inc: self.incoming@.map_values(|v: Vec<usize>| v@),
        }
    }
}

impl GraphDatabase {
    /// The graph's internal invariant, established by `new` and kept by
    /// every operation.
    pub open spec fn wf(&self) -> bool {
        g_wf(self@)
    }

    /// An empty graph.
    pub fn new() -> (r: GraphDatabase)
        ensures
            r.wf(),
            r@.nodes.len() == 0,
            r@.edges.len() == 0,
    {
        let r = GraphDatabase {
            nodes: Vec::new(),
            edges: Vec::new(),
            ends: Vec::new(),
            outgoing: Vec::new(),
            incoming: Vec::new(),
        };
        proof {
            assert(r@.nodes =~= Seq::<NodeView>::empty());
            assert(r@.edges =~= Seq::<EdgeView>::empty());
            assert(r@.out =~= Seq::<Seq<usize>>::empty());
            assert(r@.inc =~= Seq::<Seq<usize>>::empty());
        }
        r
    }

    /// The index of the node holding `id`, if one exists.
    fn find_node(&self, id: &String) -> (r: Option<usize>)
        ensures
            match r {
                Some(i) => (i as int) < self@.nodes.len() && self@.nodes[i as int].id == id@
                    && has_node(self@, id@),
                None => !has_node(self@, id@),
            },
    {
        let n = self.nodes.len();
        let mut i: usize = 0;
        while i < n
            invariant
                n == self@.nodes.len(),
                n == self.nodes@.len(),
                i <= n,
                forall|j: int| 0 <= j < i ==> self@.nodes[j].id != id@,
            decreases n - i,
        {
            assert(self@.nodes[i as int] == self.nodes@[i as int]@);
            if self.nodes[i].id == *id {
                return Some(i);
            }
            i += 1;
        }
        None
    }

    /// Inserts or overwrites the node at `id`, keeping any edges, and makes
    /// sure both adjacency lists exist for it.
    pub fn add_node(&mut self, id: &str, label: &str, properties: PropMap)
        requires
            old(self).wf(),
            properties.wf(),
        ensures
            final(self).wf(),
            add_node_post(old(self)@, final(self)@, id@, label@, properties@),
            has_node(final(self)@, id@),
    {
        let ghost g0 = self@;
        let key = id.to_owned();
        let node = GraphNode { id: key, label: label.to_owned(), properties };
        let lookup = self.find_node(&node.id);
        match lookup {
            Some(i) => {
                let ghost nv = node@;
                self.nodes.set(i, node);
                proof {
                    assert(g0.nodes[i as int].id == id@);
                    assert(forall|j: int|
                        0 <= j < i ==> g0.nodes[j].id != id@) by {
                    }
                    lemma_node_idx_is(g0, id@, i as int);
                    assert(self@.nodes =~= g0.nodes.update(i as int, nv));
                    assert(self@.out =~= g0.out);
                    assert(self@.inc =~= g0.inc);
                    assert(self@.edges =~= g0.edges);
                    assert(self@.ends =~= g0.ends);
                    assert(add_node_post(g0, self@, id@, label@, properties@));
                    assert(self@.nodes[i as int].id == id@);
                    lemma_add_node_update_wf(g0, self@, i as int);
                }
            },
            None => {
                let ghost nv = node@;
                self.nodes.push(node);
                self.outgoing.push(Vec::new());
                self.incoming.push(Vec::new());
                proof {
                    assert(self@.nodes =~= g0.nodes.push(nv));
                    assert(self@.out =~= g0.out.push(Seq::empty()));
                    assert(self@.inc =~= g0.inc.push(Seq::empty()));
                    assert(self@.edges =~= g0.edges);
                    assert(self@.ends =~= g0.ends);
                    assert(add_node_post(g0, self@, id@, label@, properties@));
                    assert(self@.nodes[g0.nodes.len() as int].id == id@);
                    lemma_add_node_push_wf(g0, self@, id@);
                }
            },
        }
    }

    /// The node holding `id`, if one exists.
    pub fn get_node(&self, id: &str) -> (r: Option<&GraphNode>)
        requires
            self.wf(),
        ensures
            match r {
                Some(nd) => has_node(self@, id@) && nd@ == self@.nodes[node_idx(self@, id@)],
                None => !has_node(self@, id@),
            },
    {
        let key = id.to_owned();
        match self.find_node(&key) {
            Some(i) => {
                proof {
                    lemma_node_idx_is(self@, id@, i as int);
                }
                Some(&self.nodes[i])
            },
            None => None,
        }
    }

    /// Creates a directed edge between two existing nodes; fails without
    /// changing anything when either endpoint is unknown.
    pub fn add_edge(&mut self, from: &str, to: &str, relationship: &str, properties: PropMap)
        -> (r: Result<String, ReferentialIntegrityError>)
        requires
            old(self).wf(),
            properties.wf(),
            old(self)@.edges.len() < usize::MAX,
        ensures
            final(self).wf(),
            add_edge_post(old(self)@, final(self)@, from@, to@, relationship@, properties@, r),
    {
        let ghost g0 = self@;
        let from_key = from.to_owned();
        let to_key = to.to_owned();
        let s_opt = self.find_node(&from_key);
        let t_opt = self.find_node(&to_key);
        let (s, t) = match (s_opt, t_opt) {
            (Some(s), Some(t)) => (s, t),
            _ => {
                proof {
                    assert(self@ =~= g0);
                }
                return Err(ReferentialIntegrityError);
            },
        };
        proof {
            lemma_node_idx_is(g0, from@, s as int);
            lemma_node_idx_is(g0, to@, t as int);
        }
        let node_count = self.nodes.len();
        assert(g0.nodes.len() == node_count);
        let e: usize = self.edges.len();
        let id = u64_to_dec(e as u64);
        let edge = GraphEdge {
            id: id.clone(),
            from: from_key,
            to: to_key,
            relationship: relationship.to_owned(),
            properties,
        };
        let ghost ev = edge@;
        self.edges.push(edge);
        self.ends.push((s, t));
        let mut out_list: Vec<usize> = Vec::new();
        self.outgoing.set_and_swap(s, &mut out_list);
        out_list.push(e);
        self.outgoing.set_and_swap(s, &mut out_list);
        let mut inc_list: Vec<usize> = Vec::new();
        self.incoming.set_and_swap(t, &mut inc_list);
        inc_list.push(e);
        self.incoming.set_and_swap(t, &mut inc_list);
        proof {
            assert(ev == EdgeView {
                id: dec_digits(e as nat),
                from: from@,
                to: to@,
                relationship: relationship@,
                props: properties@,
            });
            assert(self@.nodes =~= g0.nodes);
            assert(self@.edges =~= g0.edges.push(ev));
            assert(self@.ends =~= g0.ends.push((s, t)));
            assert(self@.out =~= g0.out.update(s as int, g0.out[s as int].push(e)));
            assert(self@.inc =~= g0.inc.update(t as int, g0.inc[t as int].push(e)));
            assert(add_edge_post(g0, self@, from@, to@, relationship@, properties@, Ok(id)));
            lemma_add_edge_wf(g0, self@, s as int, t as int);
        }
        Ok(id)
    }
}

/// The views of a vector of strings.
pub open spec fn str_views(v: Seq<String>) -> Seq<Seq<char>> {
    v.map_values(|s: String| s@)
}

/// The views of a vector of node records.
pub open spec fn node_views(v: Seq<GraphNode>) -> Seq<NodeView> {
    v.map_values(|n: GraphNode| n@)
}

/// The views of a vector of edge records.
pub open spec fn edge_views(v: Seq<GraphEdge>) -> Seq<EdgeView> {
    v.map_values(|e: GraphEdge| e@)
}

/// The view of an optional relationship filter.
pub open spec fn opt_view(o: Option<String>) -> Option<Seq<char>> {
    match o {
        Option::None => Option::None,
        Option::Some(s) => Option::Some(s@),
    }
}

/// Whether an edge's relationship passes the filter (no filter passes all).
pub open spec fn filt_ok(filt: Option<Seq<char>>, rel: Seq<char>) -> bool {
    filt is None || filt->0 == rel
}

/// The neighbor records of node `i`: the target of every outgoing edge that
/// passes the filter, in edge-insertion order.
pub open spec fn neighbors_spec(g: GraphView, i: int, filt: Option<Seq<char>>) -> Seq<NodeView> {
    g.out[i].filter(|e: usize| filt_ok(filt, g.edges[e as int].relationship)).map_values(
        |e: usize| g.nodes[g.ends[e as int].1 as int],
    )
}

/// The node records whose properties match the filter, in insertion order.
pub open spec fn nodes_matching(g: GraphView, nf: Seq<(Seq<char>, Seq<char>)>) -> Seq<NodeView> {
    g.nodes.filter(|n: NodeView| prop_matches(n.props, nf))
}

/// The edge records whose properties match the filter, in insertion order.
pub open spec fn edges_matching(g: GraphView, ef: Seq<(Seq<char>, Seq<char>)>) -> Seq<EdgeView> {
    g.edges.filter(|e: EdgeView| prop_matches(e.props, ef))
}

/// Counts over the graph reported by `get_statistics`.
pub struct GraphStatistics {
    pub node_count: usize,
    pub edge_count: usize,
    pub node_labels: Vec<String>,
    pub relationship_types: Vec<String>,
    pub average_out_degree_milli: u128,
}

/// Whether an exec string vector holds `s`, compared by contents.
fn contains_string(v: &Vec<String>, s: &String) -> (r: bool)
    ensures
        r == str_views(v@).contains(s@),
{
    let n = v.len();
    let mut i: usize = 0;
    while i < n
        invariant
            n == v@.len(),
            i <= n,
            forall|j: int| 0 <= j < i ==> (#[trigger] v@[j])@ != s@,
        decreases n - i,
    {
        assert(str_views(v@)[i as int] == v@[i as int]@);
        if v[i] == *s {
            assert(str_views(v@).contains(s@));
            return true;
        }
        i += 1;
    }
    proof {
        let ghost m = str_views(v@);
        if m.contains(s@) {
            let j = choose|j: int| 0 <= j < m.len() && (#[trigger] m[j]) == s@;
            assert(m[j] == v@[j]@);
        }
    }
    false
}

/// A copy of a node record with an equal view.
fn duplicate_node(n: &GraphNode) -> (r: GraphNode)
    ensures
        r@ == n@,
{
    GraphNode { id: n.id.clone(), label: n.label.clone(), properties: n.properties.duplicate() }
}

/// A copy of an edge record with an equal view.
fn duplicate_edge(e: &GraphEdge) -> (r: GraphEdge)
    ensures
        r@ == e@,
{
    GraphEdge {
        id: e.id.clone(),
        from: e.from.clone(),
        to: e.to.clone(),
        relationship: e.relationship.clone(),
        properties: e.properties.duplicate(),
    }
}

/// Whether the edge passes the filter.
fn passes_filter(edge: &GraphEdge, filt: &Option<String>) -> (r: bool)
    ensures
        r == filt_ok(opt_view(*filt), edge@.relationship),
{
    match filt {
        Option::None => true,
        Option::Some(f) => edge.relationship == *f,
    }
}

impl GraphDatabase {
    /// The targets of the outgoing edges of `node_id` that pass the filter,
    /// in edge-insertion order; an unknown id yields no neighbors.
    pub fn get_neighbors(&self, node_id: &str, relationship_filter: Option<String>) -> (r: Vec<
        GraphNode,
    >)
        requires
            self.wf(),
        ensures
            r@.map_values(|n: GraphNode| n@) == if has_node(self@, node_id@) {
                neighbors_spec(self@, node_idx(self@, node_id@), opt_view(relationship_filter))
            } else {
                Seq::<NodeView>::empty()
            },
    {
        let mut r: Vec<GraphNode> = Vec::new();
        let key = node_id.to_owned();
        let i = match self.find_node(&key) {
            Some(i) => i,
            None => {
                assert(r@.map_values(|n: GraphNode| n@) =~= Seq::<NodeView>::empty());
                return r;
            },
        };
        proof {
            lemma_node_idx_is(self@, node_id@, i as int);
        }
        let ghost g = self@;
        let ghost filt = opt_view(relationship_filter);
        let ghost pred = |e: usize| filt_ok(filt, g.edges[e as int].relationship);
        let out_list = &self.outgoing[i];
        let n = out_list.len();
        assert(out_list@ == g.out[i as int]);
        proof {
            reveal_with_fuel(Seq::<usize>::filter, 3);
            assert(g.out[i as int].take(0).filter(pred) =~= Seq::<usize>::empty());
            assert(r@.map_values(|nd: GraphNode| nd@) =~= Seq::<NodeView>::empty());
        }
        let mut k: usize = 0;
        while k < n
            invariant
                self.wf(),
                g == self@,
                filt == opt_view(relationship_filter),
                pred == (|e: usize| filt_ok(filt, g.edges[e as int].relationship)),
                (i as int) < g.nodes.len(),
                out_list@ == g.out[i as int],
                n == out_list@.len(),
                k <= n,
                r@.map_values(|nd: GraphNode| nd@) == g.out[i as int].take(k as int).filter(
                    pred,
                ).map_values(|e: usize| g.nodes[g.ends[e as int].1 as int]),
            decreases n - k,
        {
            let e = out_list[k];
            assert(out_entry_wf(g, i as int, k as int));
            let ghost prefix = g.out[i as int].take(k as int);
            assert(g.out[i as int].take(k as int + 1) =~= prefix.push(e));
            assert(prefix.push(e).drop_last() =~= prefix);
            let edge = &self.edges[e];
            assert(edge@ == g.edges[e as int]);
            assert(edge_wf(g, e as int));
            if passes_filter(edge, &relationship_filter) {
                assert(pred(e));
                let target = &self.nodes[self.ends[e].1];
                assert(target@ == g.nodes[g.ends[e as int].1 as int]);
                let ghost f = |e2: usize| g.nodes[g.ends[e2 as int].1 as int];
                let ghost r0 = r@.map_values(|nd: GraphNode| nd@);
                let dup = duplicate_node(target);
                let ghost dv = dup@;
                r.push(dup);
                proof {
                    reveal_with_fuel(Seq::<usize>::filter, 3);
                    assert(prefix.push(e).drop_last() =~= prefix);
                    assert(prefix.push(e).last() == e);
                    assert(prefix.push(e).filter(pred) =~= prefix.filter(pred).push(e));
                    assert(r@.map_values(|nd: GraphNode| nd@) =~= r0.push(dv));
                    assert(dv == f(e));
                    assert(prefix.filter(pred).push(e).map_values(f) =~= prefix.filter(
                        pred,
                    ).map_values(f).push(f(e)));
                    assert(r@.map_values(|nd: GraphNode| nd@) =~= g.out[i as int].take(
                        k as int + 1,
                    ).filter(pred).map_values(f));
                }
            } else {
                proof {
                    reveal_with_fuel(Seq::<usize>::filter, 3);
                    assert(!pred(e));
                    assert(prefix.push(e).drop_last() =~= prefix);
                    assert(prefix.push(e).last() == e);
                    assert(prefix.push(e).filter(pred) =~= prefix.filter(pred));
                    assert(r@.map_values(|nd: GraphNode| nd@) =~= g.out[i as int].take(
                        k as int + 1,
                    ).filter(pred).map_values(|e2: usize| g.nodes[g.ends[e2 as int].1 as int]));
                }
            }
            k += 1;
        }
        proof {
            assert(g.out[i as int].take(n as int) =~= g.out[i as int]);
        }
        r
    }

    /// The nodes and edges whose properties include every entry of the
    /// respective filter; an empty filter matches everything of that kind.
    pub fn query_by_properties(&self, node_filter: &PropMap, edge_filter: &PropMap) -> (r:
        GraphQueryResult)
        requires
            self.wf(),
        ensures
            r.nodes@.map_values(|n: GraphNode| n@) == nodes_matching(self@, node_filter@),
            r.edges@.map_values(|e: GraphEdge| e@) == edges_matching(self@, edge_filter@),
            r.paths@.len() == 0,
    {
        let ghost g = self@;
        let ghost npred = |n: NodeView| prop_matches(n.props, node_filter@);
        let ghost epred = |e: EdgeView| prop_matches(e.props, edge_filter@);
        let mut nodes: Vec<GraphNode> = Vec::new();
        let n = self.nodes.len();
        proof {
            reveal_with_fuel(Seq::<NodeView>::filter, 3);
            assert(g.nodes.take(0).filter(npred) =~= Seq::<NodeView>::empty());
            assert(nodes@.map_values(|nd: GraphNode| nd@) =~= Seq::<NodeView>::empty());
        }
        let mut i: usize = 0;
        while i < n
            invariant
                g == self@,
                npred == (|nd: NodeView| prop_matches(nd.props, node_filter@)),
                n == g.nodes.len(),
                n == self.nodes@.len(),
                i <= n,
                nodes@.map_values(|nd: GraphNode| nd@) == g.nodes.take(i as int).filter(npred),
            decreases n - i,
        {
            let ghost prefix = g.nodes.take(i as int);
            assert(g.nodes.take(i as int + 1) =~= prefix.push(g.nodes[i as int]));
            assert(prefix.push(g.nodes[i as int]).drop_last() =~= prefix);
            let nd = &self.nodes[i];
            assert(nd@ == g.nodes[i as int]);
            if nd.properties.matches(node_filter) {
                nodes.push(duplicate_node(nd));
            }
            proof {
                reveal_with_fuel(Seq::<NodeView>::filter, 3);
                assert(prefix.push(g.nodes[i as int]).drop_last() =~= prefix);
                assert(prefix.push(g.nodes[i as int]).last() == g.nodes[i as int]);
                assert(nodes@.map_values(|x: GraphNode| x@) =~= g.nodes.take(i as int + 1).filter(
                    npred,
                ));
            }
            i += 1;
        }
        let mut edges: Vec<GraphEdge> = Vec::new();
        let m = self.edges.len();
        proof {
            reveal_with_fuel(Seq::<EdgeView>::filter, 3);
            assert(g.edges.take(0).filter(epred) =~= Seq::<EdgeView>::empty());
            assert(edges@.map_values(|ed: GraphEdge| ed@) =~= Seq::<EdgeView>::empty());
        }
        let mut j: usize = 0;
        while j < m
            invariant
                g == self@,
                epred == (|ed: EdgeView| prop_matches(ed.props, edge_filter@)),
                m == g.edges.len(),
                m == self.edges@.len(),
                j <= m,
                edges@.map_values(|ed: GraphEdge| ed@) == g.edges.take(j as int).filter(epred),
            decreases m - j,
        {
            let ghost prefix = g.edges.take(j as int);
            assert(g.edges.take(j as int + 1) =~= prefix.push(g.edges[j as int]));
            assert(prefix.push(g.edges[j as int]).drop_last() =~= prefix);
            let ed = &self.edges[j];
            assert(ed@ == g.edges[j as int]);
            if ed.properties.matches(edge_filter) {
                edges.push(duplicate_edge(ed));
            }
            proof {
                reveal_with_fuel(Seq::<EdgeView>::filter, 3);
                assert(prefix.push(g.edges[j as int]).drop_last() =~= prefix);
                assert(prefix.push(g.edges[j as int]).last() == g.edges[j as int]);
                assert(edges@.map_values(|x: GraphEdge| x@) =~= g.edges.take(j as int + 1).filter(
                    epred,
                ));
            }
            j += 1;
        }
        proof {
            assert(g.nodes.take(n as int) =~= g.nodes);
            assert(g.edges.take(m as int) =~= g.edges);
        }
        GraphQueryResult { nodes, edges, paths: Vec::new() }
    }

    /// Counts, the distinct labels and relationship types, and the average
    /// out-degree in thousandths (zero for an empty graph).
    pub fn get_statistics(&self) -> (r: GraphStatistics)
        requires
            self.wf(),
        ensures
            r.node_count == self@.nodes.len(),
            r.edge_count == self@.edges.len(),
            sum_lens(self@.out) == self@.edges.len(),
            r.average_out_degree_milli == if self@.nodes.len() == 0 {
                0int
            } else {
                (self@.edges.len() * 1000) as int / self@.nodes.len() as int
            },
            str_views(r.node_labels@).no_duplicates(),
            forall|l: Seq<char>|
                #[trigger] str_views(r.node_labels@).contains(l) <==> exists|i: int|
                    0 <= i < self@.nodes.len() && (#[trigger] self@.nodes[i].label) == l,
            str_views(r.relationship_types@).no_duplicates(),
            forall|l: Seq<char>|
                #[trigger] str_views(r.relationship_types@).contains(l) <==> exists|i: int|
                    0 <= i < self@.edges.len() && (#[trigger] self@.edges[i].relationship) == l,
    {
        let ghost g = self@;
        let node_count = self.nodes.len();
        let edge_count = self.edges.len();
        let mut node_labels: Vec<String> = Vec::new();
        let mut i: usize = 0;
        while i < node_count
            invariant
                g == self@,
                node_count == g.nodes.len(),
                node_count == self.nodes@.len(),
                i <= node_count,
                str_views(node_labels@).no_duplicates(),
                forall|l: Seq<char>|
                    #[trigger] str_views(node_labels@).contains(l) <==> exists|j: int|
                        0 <= j < i && (#[trigger] g.nodes[j].label) == l,
            decreases node_count - i,
        {
            let ghost labels0 = str_views(node_labels@);
            assert(self.nodes@[i as int]@ == g.nodes[i as int]);
            let ghost cur = g.nodes[i as int].label;
            if !contains_string(&node_labels, &self.nodes[i].label) {
                node_labels.push(self.nodes[i].label.clone());
                proof {
                    assert(str_views(node_labels@) =~= labels0.push(cur));
                    assert forall|l: Seq<char>| #[trigger] str_views(node_labels@).contains(l)
                        implies exists|j: int| 0 <= j < i + 1 && (#[trigger] g.nodes[j].label)
                        == l by {
                        lemma_seq_contains_after_push(labels0, cur, l);
                        if labels0.contains(l) {
                        } else {
                            assert(g.nodes[i as int].label == l);
                        }
                    }
                    assert forall|l: Seq<char>|
                        (exists|j: int| 0 <= j < i + 1 && (#[trigger] g.nodes[j].label) == l)
                        implies #[trigger] str_views(node_labels@).contains(l) by {
                        lemma_seq_contains_after_push(labels0, cur, l);
                        let j = choose|j: int| 0 <= j < i + 1 && g.nodes[j].label == l;
                        if j < i {
                            assert(labels0.contains(l));
                        }
                    }
                    assert(!labels0.contains(cur));
                    lemma_seq_contains_after_push(labels0, cur, cur);
                }
            } else {
                proof {
                    assert forall|l: Seq<char>|
                        (exists|j: int| 0 <= j < i + 1 && (#[trigger] g.nodes[j].label) == l)
                        implies #[trigger] str_views(node_labels@).contains(l) by {
                        let j = choose|j: int| 0 <= j < i + 1 && g.nodes[j].label == l;
                        if j == i {
                            assert(str_views(node_labels@).contains(cur));
                        }
                    }
                }
            }
            i += 1;
        }
        let mut relationship_types: Vec<String> = Vec::new();
        let mut j: usize = 0;
        while j < edge_count
            invariant
                g == self@,
                edge_count == g.edges.len(),
                edge_count == self.edges@.len(),
                j <= edge_count,
                str_views(relationship_types@).no_duplicates(),
                forall|l: Seq<char>|
                    #[trigger] str_views(relationship_types@).contains(l) <==> exists|k: int|
                        0 <= k < j && (#[trigger] g.edges[k].relationship) == l,
            decreases edge_count - j,
        {
            let ghost rels0 = str_views(relationship_types@);
            assert(self.edges@[j as int]@ == g.edges[j as int]);
            let ghost cur = g.edges[j as int].relationship;
            if !contains_string(&relationship_types, &self.edges[j].relationship) {
                relationship_types.push(self.edges[j].relationship.clone());
                proof {
                    assert(str_views(relationship_types@) =~= rels0.push(cur));
                    assert forall|l: Seq<char>|
                        #[trigger] str_views(relationship_types@).contains(l) implies exists|k: int|
                        0 <= k < j + 1 && (#[trigger] g.edges[k].relationship) == l by {
                        lemma_seq_contains_after_push(rels0, cur, l);
                        if rels0.contains(l) {
                        } else {
                            assert(g.edges[j as int].relationship == l);
                        }
                    }
                    assert forall|l: Seq<char>|
                        (exists|k: int| 0 <= k < j + 1 && (#[trigger] g.edges[k].relationship) == l)
                        implies #[trigger] str_views(relationship_types@).contains(l) by {
                        lemma_seq_contains_after_push(rels0, cur, l);
                        let k = choose|k: int| 0 <= k < j + 1 && g.edges[k].relationship == l;
                        if k < j {
                            assert(rels0.contains(l));
                        }
                    }
                    assert(!rels0.contains(cur));
                    lemma_seq_contains_after_push(rels0, cur, cur);
                }
            } else {
                proof {
                    assert forall|l: Seq<char>|
                        (exists|k: int| 0 <= k < j + 1 && (#[trigger] g.edges[k].relationship) == l)
                        implies #[trigger] str_views(relationship_types@).contains(l) by {
                        let k = choose|k: int| 0 <= k < j + 1 && g.edges[k].relationship == l;
                        if k == j {
                            assert(str_views(relationship_types@).contains(cur));
                        }
                    }
                }
            }
            j += 1;
        }
        let average_out_degree_milli: u128 = if node_count == 0 {
            0
        } else {
            (edge_count as u128) * 1000 / (node_count as u128)
        };
        GraphStatistics {
            node_count,
            edge_count,
            node_labels,
            relationship_types,
            average_out_degree_milli,
        }
    }
}

/// Every edge is registered in exactly one outgoing list and exactly one
/// incoming list: those of its source and target, once each, and the edge
/// record's endpoint ids name those nodes.
pub proof fn lemma_adjacency_consistency(g: GraphView, e: int)
    requires
        g_wf(g),
        g.edges.len() <= usize::MAX,
        0 <= e < g.edges.len(),
    ensures
        g.out[g.ends[e].0 as int].contains(e as usize),
        g.inc[g.ends[e].1 as int].contains(e as usize),
        g.edges[e].from == g.nodes[g.ends[e].0 as int].id,
        g.edges[e].to == g.nodes[g.ends[e].1 as int].id,
        forall|n: int|
            0 <= n < g.out.len() && n != g.ends[e].0 as int ==> !(#[trigger] g.out[n]).contains(
                e as usize,
            ),
        forall|n: int|
            0 <= n < g.inc.len() && n != g.ends[e].1 as int ==> !(#[trigger] g.inc[n]).contains(
                e as usize,
            ),
        forall|n: int, k1: int, k2: int|
            0 <= n < g.out.len() && 0 <= k1 < g.out[n].len() && 0 <= k2 < g.out[n].len()
                && (#[trigger] g.out[n][k1]) == e as usize && (#[trigger] g.out[n][k2])
                == e as usize ==> k1 == k2,
        forall|n: int, k1: int, k2: int|
            0 <= n < g.inc.len() && 0 <= k1 < g.inc[n].len() && 0 <= k2 < g.inc[n].len()
                && (#[trigger] g.inc[n][k1]) == e as usize && (#[trigger] g.inc[n][k2])
                == e as usize ==> k1 == k2,
{
    assert(edge_wf(g, e));
    assert forall|n: int|
        0 <= n < g.out.len() && n != g.ends[e].0 as int implies !(#[trigger] g.out[n]).contains(
        e as usize,
    ) by {
        if g.out[n].contains(e as usize) {
            let k = choose|k: int| 0 <= k < g.out[n].len() && g.out[n][k] == e as usize;
            assert(out_entry_wf(g, n, k));
        }
    }
    assert forall|n: int|
        0 <= n < g.inc.len() && n != g.ends[e].1 as int implies !(#[trigger] g.inc[n]).contains(
        e as usize,
    ) by {
        if g.inc[n].contains(e as usize) {
            let k = choose|k: int| 0 <= k < g.inc[n].len() && g.inc[n][k] == e as usize;
            assert(inc_entry_wf(g, n, k));
        }
    }
}

/// Distinct edges have distinct identifier strings.
pub proof fn lemma_edge_ids_unique(g: GraphView, e1: int, e2: int)
    requires
        g_wf(g),
        0 <= e1 < g.edges.len(),
        0 <= e2 < g.edges.len(),
        e1 != e2,
    ensures
        g.edges[e1].id != g.edges[e2].id,
{
    assert(edge_wf(g, e1));
    assert(edge_wf(g, e2));
    if g.edges[e1].id == g.edges[e2].id {
        lemma_dec_digits_injective(e1 as nat, e2 as nat);
    }
}

/// With unique ids, the node found at `i` is the node the id addresses.
proof fn lemma_node_idx_is(g: GraphView, id: Seq<char>, i: int)
    requires
        g_wf(g),
        0 <= i < g.nodes.len(),
        g.nodes[i].id == id,
    ensures
        node_idx(g, id) == i,
        has_node(g, id),
{
    assert(has_node(g, id));
    let j = node_idx(g, id);
    if j != i {
        assert(g.nodes[i].id != g.nodes[j].id);
    }
}

/// Overwriting a node in place preserves the invariant.
proof fn lemma_add_node_update_wf(g0: GraphView, g1: GraphView, i: int)
    requires
        g_wf(g0),
        0 <= i < g0.nodes.len(),
        g1.nodes == g0.nodes.update(i, g1.nodes[i]),
        g1.nodes[i].id == g0.nodes[i].id,
        prop_keys_unique(g1.nodes[i].props),
        g1.edges == g0.edges,
        g1.ends == g0.ends,
        g1.out == g0.out,
        g1.inc == g0.inc,
    ensures
        g_wf(g1),
{
    assert(forall|j: int| 0 <= j < g1.nodes.len() ==> g1.nodes[j].id == g0.nodes[j].id);
    assert forall|e: int| 0 <= e < g1.edges.len() implies edge_wf(g1, e) by {
        assert(edge_wf(g0, e));
    }
    assert forall|n: int, k: int|
        0 <= n < g1.out.len() && 0 <= k < g1.out[n].len() implies out_entry_wf(g1, n, k) by {
        assert(out_entry_wf(g0, n, k));
    }
    assert forall|n: int, k: int|
        0 <= n < g1.inc.len() && 0 <= k < g1.inc[n].len() implies inc_entry_wf(g1, n, k) by {
        assert(inc_entry_wf(g0, n, k));
    }
}

/// Appending a fresh node with empty adjacency lists preserves the invariant.
proof fn lemma_add_node_push_wf(g0: GraphView, g1: GraphView, id: Seq<char>)
    requires
        g_wf(g0),
        !has_node(g0, id),
        g1.nodes == g0.nodes.push(g1.nodes.last()),
        g1.nodes.last().id == id,
        prop_keys_unique(g1.nodes.last().props),
        g1.edges == g0.edges,
        g1.ends == g0.ends,
        g1.out == g0.out.push(Seq::empty()),
        g1.inc == g0.inc.push(Seq::empty()),
    ensures
        g_wf(g1),
{
    let n0 = g0.nodes.len() as int;
    assert(forall|j: int| 0 <= j < n0 ==> g1.nodes[j] == g0.nodes[j]);
    assert(forall|j: int| 0 <= j < n0 ==> g0.nodes[j].id != id);
    assert forall|e: int| 0 <= e < g1.edges.len() implies edge_wf(g1, e) by {
        assert(edge_wf(g0, e));
        assert(g1.out[g1.ends[e].0 as int] == g0.out[g0.ends[e].0 as int]);
        assert(g1.inc[g1.ends[e].1 as int] == g0.inc[g0.ends[e].1 as int]);
    }
    assert forall|n: int, k: int|
        0 <= n < g1.out.len() && 0 <= k < g1.out[n].len() implies out_entry_wf(g1, n, k) by {
        if n < n0 {
            assert(out_entry_wf(g0, n, k));
        } else {
            assert(g1.out[n] =~= Seq::<usize>::empty());
        }
    }
    assert forall|n: int, k: int|
        0 <= n < g1.inc.len() && 0 <= k < g1.inc[n].len() implies inc_entry_wf(g1, n, k) by {
        if n < n0 {
            assert(inc_entry_wf(g0, n, k));
        } else {
            assert(g1.inc[n] =~= Seq::<usize>::empty());
        }
    }
    lemma_sum_lens_push(g0.out, Seq::empty());
}

/// Appending an edge and registering it in both indices preserves the
/// invariant.
proof fn lemma_add_edge_wf(g0: GraphView, g1: GraphView, s: int, t: int)
    requires
        g_wf(g0),
        0 <= s < g0.nodes.len(),
        0 <= t < g0.nodes.len(),
        g0.nodes.len() <= usize::MAX,
        g0.edges.len() < usize::MAX,
        g1.nodes == g0.nodes,
        g1.edges == g0.edges.push(g1.edges.last()),
        g1.edges.last().id == dec_digits(g0.edges.len()),
        g1.edges.last().from == g0.nodes[s].id,
        g1.edges.last().to == g0.nodes[t].id,
        prop_keys_unique(g1.edges.last().props),
        g1.ends == g0.ends.push(((s as usize), (t as usize))),
        g1.out == g0.out.update(s, g0.out[s].push((g0.edges.len() as usize))),
        g1.inc == g0.inc.update(t, g0.inc[t].push((g0.edges.len() as usize))),
    ensures
        g_wf(g1),
{
    let e0 = g0.edges.len() as int;
    assert forall|e: int| 0 <= e < g1.edges.len() implies edge_wf(g1, e) by {
        if e < e0 {
            assert(edge_wf(g0, e));
            assert(g1.ends[e] == g0.ends[e]);
            assert(g1.edges[e] == g0.edges[e]);
            if g0.ends[e].0 as int == s {
                assert(g0.out[s].contains(e as usize));
                let k = choose|k: int| 0 <= k < g0.out[s].len() && g0.out[s][k] == e as usize;
                assert(g1.out[s][k] == e as usize);
                assert(g1.out[s].contains(e as usize));
            } else {
                assert(g1.out[g0.ends[e].0 as int] == g0.out[g0.ends[e].0 as int]);
            }
            if g0.ends[e].1 as int == t {
                assert(g0.inc[t].contains(e as usize));
                let k = choose|k: int| 0 <= k < g0.inc[t].len() && g0.inc[t][k] == e as usize;
                assert(g1.inc[t][k] == e as usize);
                assert(g1.inc[t].contains(e as usize));
            } else {
                assert(g1.inc[g0.ends[e].1 as int] == g0.inc[g0.ends[e].1 as int]);
            }
        } else {
            assert(e == e0);
            assert(g1.ends[e] == ((s as usize), (t as usize)));
            assert(g1.edges[e] == g1.edges.last());
            assert(g1.out[s] == g0.out[s].push(e as usize));
            assert(g1.out[s][g0.out[s].len() as int] == e as usize);
            assert(g1.out[s].contains(e as usize));
            assert(g1.inc[t] == g0.inc[t].push(e as usize));
            assert(g1.inc[t][g0.inc[t].len() as int] == e as usize);
            assert(g1.inc[t].contains(e as usize));
        }
    }
    assert forall|n: int, k: int|
        0 <= n < g1.out.len() && 0 <= k < g1.out[n].len() implies out_entry_wf(g1, n, k) by {
        if n == s {
            if k < g0.out[s].len() {
                assert(out_entry_wf(g0, n, k));
            } else {
                assert(g1.out[n][k] == e0 as usize);
            }
        } else {
            assert(g1.out[n] == g0.out[n]);
            assert(out_entry_wf(g0, n, k));
        }
    }
    assert forall|n: int, k: int|
        0 <= n < g1.inc.len() && 0 <= k < g1.inc[n].len() implies inc_entry_wf(g1, n, k) by {
        if n == t {
            if k < g0.inc[t].len() {
                assert(inc_entry_wf(g0, n, k));
            } else {
                assert(g1.inc[n][k] == e0 as usize);
            }
        } else {
            assert(g1.inc[n] == g0.inc[n]);
            assert(inc_entry_wf(g0, n, k));
        }
    }
    assert forall|n: int, k1: int, k2: int|
        0 <= n < g1.out.len() && 0 <= k1 < k2 < g1.out[n].len() implies g1.out[n][k1]
        < g1.out[n][k2] by {
        if n == s && k2 == g0.out[s].len() {
            assert(out_entry_wf(g0, n, k1));
            assert((g0.out[s][k1] as int) < e0);
        }
    }
    assert forall|n: int, k1: int, k2: int|
        0 <= n < g1.inc.len() && 0 <= k1 < k2 < g1.inc[n].len() implies g1.inc[n][k1]
        < g1.inc[n][k2] by {
        if n == t && k2 == g0.inc[t].len() {
            assert(inc_entry_wf(g0, n, k1));
            assert((g0.inc[t][k1] as int) < e0);
        }
    }
    lemma_sum_lens_update(g0.out, s, g0.out[s].push(e0 as usize));
}


/// Edge `e` exists and passes the filter.
pub open spec fn edge_passes(g: GraphView, e: int, filt: Option<Seq<char>>) -> bool {
    0 <= e < g.edges.len() && filt_ok(filt, g.edges[e].relationship)
}

/// `p` is a chain of filtered edges leading from node index `s` to node
/// index `t`.
pub open spec fn is_path(g: GraphView, p: Seq<usize>, s: int, t: int, filt: Option<Seq<char>>) -> bool
    decreases p.len(),
{
    if p.len() == 0 {
        s == t
    } else {
        &&& edge_passes(g, p[0] as int, filt)
        &&& g.ends[p[0] as int].0 as int == s
        &&& is_path(g, p.drop_first(), g.ends[p[0] as int].1 as int, t, filt)
    }
}

/// Some chain of filtered edges leads from `s` to `t`.
pub open spec fn reachable(g: GraphView, s: int, t: int, filt: Option<Seq<char>>) -> bool {
    exists|p: Seq<usize>| is_path(g, p, s, t, filt)
}

/// Some chain of at most `d` filtered edges leads from `s` to `t`.
pub open spec fn reach_within(g: GraphView, s: int, t: int, filt: Option<Seq<char>>, d: int) -> bool {
    exists|p: Seq<usize>| is_path(g, p, s, t, filt) && p.len() <= d
}

/// A path within `d1` edges is a path within any larger bound.
proof fn lemma_reach_within_mono(g: GraphView, s: int, t: int, filt: Option<Seq<char>>, d1: int, d2: int)
    requires
        reach_within(g, s, t, filt, d1),
        d1 <= d2,
    ensures
        reach_within(g, s, t, filt, d2),
{
    let p = choose|p: Seq<usize>| is_path(g, p, s, t, filt) && p.len() <= d1;
    assert(is_path(g, p, s, t, filt) && p.len() <= d2);
}

/// A path can be extended by one more filtered edge at its end.
proof fn lemma_path_extend(g: GraphView, p: Seq<usize>, s: int, u: int, e: int, filt: Option<Seq<char>>)
    requires
        is_path(g, p, s, u, filt),
        edge_passes(g, e, filt),
        g.ends[e].0 as int == u,
        e <= usize::MAX,
    ensures
        is_path(g, p.push(e as usize), s, g.ends[e].1 as int, filt),
    decreases p.len(),
{
    let q = p.push(e as usize);
    if p.len() == 0 {
        assert(s == u);
        assert(q[0] == e as usize);
        assert(q.drop_first() =~= Seq::<usize>::empty());
        assert(is_path(g, Seq::<usize>::empty(), g.ends[e].1 as int, g.ends[e].1 as int, filt));
        assert(is_path(g, q, s, g.ends[e].1 as int, filt));
    } else {
        assert(edge_passes(g, p[0] as int, filt));
        assert(g.ends[p[0] as int].0 as int == s);
        assert(is_path(g, p.drop_first(), g.ends[p[0] as int].1 as int, u, filt));
        lemma_path_extend(g, p.drop_first(), g.ends[p[0] as int].1 as int, u, e, filt);
        assert(q.drop_first() =~= p.drop_first().push(e as usize));
        assert(q[0] == p[0]);
        assert(is_path(g, q.drop_first(), g.ends[p[0] as int].1 as int, g.ends[e].1 as int, filt));
        assert(is_path(g, q, s, g.ends[e].1 as int, filt));
    }
}

/// A path can be extended by one more filtered edge at its start.
proof fn lemma_path_cons(g: GraphView, e: int, p: Seq<usize>, v: int, t: int, filt: Option<Seq<char>>)
    requires
        edge_passes(g, e, filt),
        g.ends[e].1 as int == v,
        is_path(g, p, v, t, filt),
        e <= usize::MAX,
    ensures
        is_path(g, seq![e as usize] + p, g.ends[e].0 as int, t, filt),
{
    let q = seq![e as usize] + p;
    assert(q[0] == e as usize);
    assert(q.drop_first() =~= p);
    assert(is_path(g, q, g.ends[e].0 as int, t, filt));
}

/// A search state is closed below `bound` when every node that was assigned a
/// depth below `bound` has been expanded, and expanding a node reaches each
/// filtered successor within one more step.
pub open spec fn bfs_closed(
    g: GraphView,
    filt: Option<Seq<char>>,
    depth: Map<int, int>,
    processed: Set<int>,
    bound: int,
) -> bool {
    &&& (forall|u: int| #[trigger] depth.dom().contains(u) && depth[u] < bound ==> processed.contains(u))
    &&& (forall|u: int| #[trigger] processed.contains(u) ==> depth.dom().contains(u))
    &&& (forall|u: int, e: int|
        #![trigger processed.contains(u), g.ends[e]]
        processed.contains(u) && depth[u] < bound && edge_passes(g, e, filt) && g.ends[e].0 as int
            == u ==> depth.dom().contains(g.ends[e].1 as int) && depth[g.ends[e].1 as int]
            <= depth[u] + 1)
}

/// In a state closed below `bound`, a path that stays strictly under the
/// bound pins the depth of its endpoint: breadth-first depths are shortest
/// distances.
proof fn lemma_bfs_cover(
    g: GraphView,
    filt: Option<Seq<char>>,
    depth: Map<int, int>,
    processed: Set<int>,
    bound: int,
    s: int,
    p: Seq<usize>,
    t: int,
)
    requires
        bfs_closed(g, filt, depth, processed, bound),
        depth.dom().contains(s),
        is_path(g, p, s, t, filt),
        depth[s] + p.len() < bound,
    ensures
        depth.dom().contains(t),
        depth[t] <= depth[s] + p.len(),
    decreases p.len(),
{
    if p.len() == 0 {
    } else {
        let e = p[0] as int;
        let v = g.ends[e].1 as int;
        assert(processed.contains(s));
        assert(depth.dom().contains(v) && depth[v] <= depth[s] + 1);
        lemma_bfs_cover(g, filt, depth, processed, bound, v, p.drop_first(), t);
    }
}

/// Distinct node indices hold distinct records, so a record determines its
/// index.
proof fn lemma_node_records_injective(g: GraphView, v1: int, v2: int)
    requires
        g_wf(g),
        0 <= v1 < g.nodes.len(),
        0 <= v2 < g.nodes.len(),
        g.nodes[v1] == g.nodes[v2],
    ensures
        v1 == v2,
{
    if v1 != v2 {
        assert(g.nodes[v1].id != g.nodes[v2].id);
    }
}

/// Distinct edge indices hold distinct records.
proof fn lemma_edge_records_injective(g: GraphView, e1: int, e2: int)
    requires
        g_wf(g),
        0 <= e1 < g.edges.len(),
        0 <= e2 < g.edges.len(),
        g.edges[e1] == g.edges[e2],
    ensures
        e1 == e2,
{
    assert(edge_wf(g, e1));
    assert(edge_wf(g, e2));
    if e1 != e2 {
        lemma_dec_digits_injective(e1 as nat, e2 as nat);
    }
}

/// Mapping distinct node indices to their records keeps distinctness, and
/// membership of a record coincides with membership of its index.
proof fn lemma_node_map_facts(g: GraphView, ids: Seq<int>)
    requires
        g_wf(g),
        ids.no_duplicates(),
        forall|a: int| 0 <= a < ids.len() ==> 0 <= #[trigger] ids[a] < g.nodes.len(),
    ensures
        ids.map_values(|v: int| g.nodes[v]).no_duplicates(),
        forall|v: int|
            0 <= v < g.nodes.len() ==> (ids.map_values(|v2: int| g.nodes[v2]).contains(
                #[trigger] g.nodes[v],
            ) <==> ids.contains(v)),
{
    let m = ids.map_values(|v: int| g.nodes[v]);
    assert forall|a1: int, a2: int| 0 <= a1 < a2 < m.len() implies m[a1] != m[a2] by {
        if m[a1] == m[a2] {
            lemma_node_records_injective(g, ids[a1], ids[a2]);
        }
    }
    assert forall|v: int| 0 <= v < g.nodes.len() implies (m.contains(#[trigger] g.nodes[v])
        <==> ids.contains(v)) by {
        if m.contains(g.nodes[v]) {
            let a = choose|a: int| 0 <= a < m.len() && m[a] == g.nodes[v];
            lemma_node_records_injective(g, ids[a], v);
            assert(ids[a] == v);
        }
        if ids.contains(v) {
            let a = choose|a: int| 0 <= a < ids.len() && ids[a] == v;
            assert(m[a] == g.nodes[v]);
        }
    }
}

/// The edge-record counterpart of `lemma_node_map_facts`.
proof fn lemma_edge_map_facts(g: GraphView, ids: Seq<int>)
    requires
        g_wf(g),
        ids.no_duplicates(),
        forall|a: int| 0 <= a < ids.len() ==> 0 <= #[trigger] ids[a] < g.edges.len(),
    ensures
        ids.map_values(|e: int| g.edges[e]).no_duplicates(),
        forall|e: int|
            0 <= e < g.edges.len() ==> (ids.map_values(|e2: int| g.edges[e2]).contains(
                #[trigger] g.edges[e],
            ) <==> ids.contains(e)),
{
    let m = ids.map_values(|e: int| g.edges[e]);
    assert forall|a1: int, a2: int| 0 <= a1 < a2 < m.len() implies m[a1] != m[a2] by {
        if m[a1] == m[a2] {
            lemma_edge_records_injective(g, ids[a1], ids[a2]);
        }
    }
    assert forall|e: int| 0 <= e < g.edges.len() implies (m.contains(#[trigger] g.edges[e])
        <==> ids.contains(e)) by {
        if m.contains(g.edges[e]) {
            let a = choose|a: int| 0 <= a < m.len() && m[a] == g.edges[e];
            lemma_edge_records_injective(g, ids[a], e);
            assert(ids[a] == e);
        }
        if ids.contains(e) {
            let a = choose|a: int| 0 <= a < ids.len() && ids[a] == e;
            assert(m[a] == g.edges[e]);
        }
    }
}


/// The record of the node an edge record points to.
pub open spec fn target_rec(g: GraphView, ev: EdgeView) -> NodeView {
    g.nodes[node_idx(g, ev.to)]
}

/// The records of the filtered edges among the first `upto` outgoing
/// entries of node `v`, in adjacency order.
pub open spec fn edges_prefix(g: GraphView, filt: Option<Seq<char>>, v: int, upto: int) -> Seq<
    EdgeView,
> {
    g.out[v].take(upto).filter(|e: usize| filt_ok(filt, g.edges[e as int].relationship))
        .map_values(|e: usize| g.edges[e as int])
}

/// The filtered outgoing edge records of the node holding `x`'s id, in
/// adjacency order.
pub open spec fn edges_of_rec(g: GraphView, filt: Option<Seq<char>>, x: NodeView) -> Seq<EdgeView> {
    edges_prefix(g, filt, node_idx(g, x.id), g.out[node_idx(g, x.id)].len() as int)
}

/// The edge records contributed by each node record in turn: discovery
/// order is visit order of the sources, adjacency order within one source.
pub open spec fn flat_edges(g: GraphView, filt: Option<Seq<char>>, rns: Seq<NodeView>) -> Seq<
    EdgeView,
>
    decreases rns.len(),
{
    if rns.len() == 0 {
        Seq::empty()
    } else {
        edges_of_rec(g, filt, rns[0]) + flat_edges(g, filt, rns.drop_first())
    }
}

proof fn lemma_flat_edges_push(
    g: GraphView,
    filt: Option<Seq<char>>,
    rns: Seq<NodeView>,
    x: NodeView,
)
    ensures
        flat_edges(g, filt, rns.push(x)) == flat_edges(g, filt, rns) + edges_of_rec(g, filt, x),
    decreases rns.len(),
{
    let q = rns.push(x);
    if rns.len() == 0 {
        assert(q[0] == x);
        assert(q.drop_first() =~= Seq::<NodeView>::empty());
        assert(flat_edges(g, filt, Seq::<NodeView>::empty()) =~= Seq::<EdgeView>::empty());
        assert(flat_edges(g, filt, rns) =~= Seq::<EdgeView>::empty());
        assert(flat_edges(g, filt, q) == edges_of_rec(g, filt, x) + flat_edges(
            g,
            filt,
            q.drop_first(),
        ));
        assert(flat_edges(g, filt, q) =~= flat_edges(g, filt, rns) + edges_of_rec(g, filt, x));
    } else {
        assert(q[0] == rns[0]);
        assert(q.drop_first() =~= rns.drop_first().push(x));
        lemma_flat_edges_push(g, filt, rns.drop_first(), x);
        assert(flat_edges(g, filt, q) =~= flat_edges(g, filt, rns) + edges_of_rec(g, filt, x));
    }
}

/// Appends each record of `ts` in turn, skipping those already present.
pub open spec fn append_new(seen: Seq<NodeView>, ts: Seq<NodeView>) -> Seq<NodeView>
    decreases ts.len(),
{
    if ts.len() == 0 {
        seen
    } else if seen.contains(ts[0]) {
        append_new(seen, ts.drop_first())
    } else {
        append_new(seen.push(ts[0]), ts.drop_first())
    }
}

proof fn lemma_append_new_push(seen: Seq<NodeView>, ts: Seq<NodeView>, x: NodeView)
    ensures
        append_new(seen, ts.push(x)) == if append_new(seen, ts).contains(x) {
            append_new(seen, ts)
        } else {
            append_new(seen, ts).push(x)
        },
    decreases ts.len(),
{
    let q = ts.push(x);
    if ts.len() == 0 {
        assert(q[0] == x);
        assert(q.drop_first() =~= Seq::<NodeView>::empty());
        assert(append_new(seen, ts) == seen);
        assert(append_new(seen, q.drop_first()) == seen);
        assert(append_new(seen.push(x), q.drop_first()) == seen.push(x));
    } else {
        assert(q[0] == ts[0]);
        assert(q.drop_first() =~= ts.drop_first().push(x));
        assert(append_new(seen, q) == if seen.contains(ts[0]) {
            append_new(seen, q.drop_first())
        } else {
            append_new(seen.push(ts[0]), q.drop_first())
        });
        assert(append_new(seen, ts) == if seen.contains(ts[0]) {
            append_new(seen, ts.drop_first())
        } else {
            append_new(seen.push(ts[0]), ts.drop_first())
        });
        if seen.contains(ts[0]) {
            lemma_append_new_push(seen, ts.drop_first(), x);
        } else {
            lemma_append_new_push(seen.push(ts[0]), ts.drop_first(), x);
        }
    }
}

/// The target records of the edge records, in order.
pub open spec fn targets_of(g: GraphView, re: Seq<EdgeView>) -> Seq<NodeView>
    decreases re.len(),
{
    if re.len() == 0 {
        Seq::empty()
    } else {
        seq![target_rec(g, re[0])] + targets_of(g, re.drop_first())
    }
}

proof fn lemma_targets_of_push(g: GraphView, re: Seq<EdgeView>, ev: EdgeView)
    ensures
        targets_of(g, re.push(ev)) == targets_of(g, re).push(target_rec(g, ev)),
    decreases re.len(),
{
    let q = re.push(ev);
    if re.len() == 0 {
        assert(q[0] == ev);
        assert(q.drop_first() =~= Seq::<EdgeView>::empty());
        assert(targets_of(g, Seq::<EdgeView>::empty()) =~= Seq::<NodeView>::empty());
        assert(targets_of(g, re) =~= Seq::<NodeView>::empty());
        assert(targets_of(g, q) == seq![target_rec(g, ev)] + targets_of(g, q.drop_first()));
        assert(targets_of(g, q) =~= targets_of(g, re).push(target_rec(g, ev)));
    } else {
        assert(q[0] == re[0]);
        assert(q.drop_first() =~= re.drop_first().push(ev));
        lemma_targets_of_push(g, re.drop_first(), ev);
        assert(targets_of(g, q) =~= targets_of(g, re).push(target_rec(g, ev)));
    }
}

/// The order nodes are first reached in: the start record, then each edge
/// target not seen before, as the edge records run.
pub open spec fn visit_order(g: GraphView, si: int, re: Seq<EdgeView>) -> Seq<NodeView> {
    append_new(seq![g.nodes[si]], targets_of(g, re))
}

/// Appending an edge record appends its target to the visit order when the
/// target is new, and changes nothing otherwise.
proof fn lemma_visit_order_push(g: GraphView, si: int, re: Seq<EdgeView>, ev: EdgeView)
    ensures
        visit_order(g, si, re.push(ev)) == if visit_order(g, si, re).contains(
            target_rec(g, ev),
        ) {
            visit_order(g, si, re)
        } else {
            visit_order(g, si, re).push(target_rec(g, ev))
        },
{
    lemma_targets_of_push(g, re, ev);
    lemma_append_new_push(seq![g.nodes[si]], targets_of(g, re), target_rec(g, ev));
}

/// Whether some queue entry names node `v`.
pub open spec fn in_queue(q: Seq<(usize, usize)>, v: int) -> bool {
    exists|i: int| 0 <= i < q.len() && (#[trigger] q[i]).0 as int == v
}

/// What `traverse` returns: the records of every node whose breadth-first
/// distance from `start` is below `max_depth` (each once), the filtered
/// edges leaving those nodes (each once), and no paths. An unknown start
/// yields an empty result.
pub open spec fn traverse_post(
    g: GraphView,
    start: Seq<char>,
    k: int,
    filt: Option<Seq<char>>,
    rn: Seq<NodeView>,
    re: Seq<EdgeView>,
    n_paths: int,
) -> bool {
    &&& n_paths == 0
    &&& if has_node(g, start) {
        let si = node_idx(g, start);
        &&& rn.no_duplicates()
        &&& (forall|v: int|
            0 <= v < g.nodes.len() ==> (rn.contains(#[trigger] g.nodes[v]) <==> reach_within(
                g,
                si,
                v,
                filt,
                k - 1,
            )))
        &&& (forall|a: int| 0 <= a < rn.len() ==> g.nodes.contains(#[trigger] rn[a]))
        &&& re.no_duplicates()
        &&& (forall|e: int|
            0 <= e < g.edges.len() ==> (re.contains(#[trigger] g.edges[e]) <==> (edge_passes(
                g,
                e,
                filt,
            ) && reach_within(g, si, g.ends[e].0 as int, filt, k - 1))))
        &&& (forall|a: int| 0 <= a < re.len() ==> g.edges.contains(#[trigger] re[a]))
    } else {
        rn.len() == 0 && re.len() == 0
    }
}

impl GraphDatabase {
    /// Breadth-first exploration from `start_node`, following only edges
    /// that pass the filter, expanding no node at depth `max_depth` or
    /// beyond.
    #[verifier::loop_isolation(false)]
    #[verifier::rlimit(100)]
    pub fn traverse(&self, start_node: &str, max_depth: usize, relationship_filter: Option<String>)
        -> (r: GraphQueryResult)
        requires
            self.wf(),
        ensures
            traverse_post(
                self@,
                start_node@,
                max_depth as int,
                opt_view(relationship_filter),
                node_views(r.nodes@),
                edge_views(r.edges@),
                r.paths@.len() as int,
            ),
    {
        let ghost g = self@;
        let ghost filt = opt_view(relationship_filter);
        let ghost k = max_depth as int;
        let mut result_nodes: Vec<GraphNode> = Vec::new();
        let mut result_edges: Vec<GraphEdge> = Vec::new();
        let key = start_node.to_owned();
        let si = match self.find_node(&key) {
            Some(i) => i,
            None => {
                proof {
                    assert(node_views(result_nodes@) =~= Seq::<NodeView>::empty());
                    assert(edge_views(result_edges@) =~= Seq::<EdgeView>::empty());
                }
                return GraphQueryResult {
                    nodes: result_nodes,
                    edges: result_edges,
                    paths: Vec::new(),
                };
            },
        };
        proof {
            lemma_node_idx_is(g, start_node@, si as int);
        }
        let n = self.nodes.len();
        let edge_total = self.edges.len();
        assert(g.edges.len() == edge_total);
        let mut visited: Vec<bool> = vec![false; n];
        visited.set(si, true);
        let mut queue: VecDeque<(usize, usize)> = VecDeque::new();
        queue.push_back((si, 0));
        let ghost mut depth: Map<int, int> = Map::<int, int>::empty().insert(si as int, 0);
        let ghost mut processed: Set<int> = Set::<int>::empty();
        let ghost mut rec_nodes: Seq<int> = Seq::empty();
        let ghost mut rec_edges: Seq<int> = Seq::empty();
        let ghost mut vseq: Seq<int> = seq![si as int];
        let ghost mut popped: Seq<int> = Seq::empty();
        proof {
            assert(is_path(g, Seq::<usize>::empty(), si as int, si as int, filt));
            assert(node_views(result_nodes@) =~= rec_nodes.map_values(|v: int| g.nodes[v]));
            assert(edge_views(result_edges@) =~= rec_edges.map_values(|e: int| g.edges[e]));
            lemma_int_range(0, n as int);
            assert(queue@[0].0 as int == si as int);
            assert(in_queue(queue@, si as int));
            assert forall|v: int| #[trigger] depth.dom().contains(v) implies processed.contains(v)
                || in_queue(queue@, v) by {
                assert(v == si as int);
            }
            assert(edge_views(result_edges@) =~= flat_edges(
                g,
                filt,
                node_views(result_nodes@),
            ));
            assert(targets_of(g, edge_views(result_edges@)) =~= Seq::<NodeView>::empty());
            assert(visit_order(g, si as int, edge_views(result_edges@)) == seq![
                g.nodes[si as int],
            ]);
            assert(vseq.map_values(|v: int| g.nodes[v]) =~= visit_order(
                g,
                si as int,
                edge_views(result_edges@),
            ));
            assert(vseq =~= popped + queue@.map_values(|qq: (usize, usize)| qq.0 as int));
            assert(rec_nodes =~= popped.take(rec_nodes.len() as int));
            assert forall|v: int| #[trigger] depth.dom().contains(v) implies vseq.contains(v) by {
                assert(v == si as int);
                assert(vseq[0] == v);
            }
        }
        #[verifier::loop_isolation(true)]
        while queue.len() > 0
            invariant
                self.wf(),
                g == self@,
                filt == opt_view(relationship_filter),
                k == max_depth as int,
                n == g.nodes.len(),
                n == self.nodes@.len(),
                g.edges.len() <= usize::MAX,
                (si as int) < n,
                visited@.len() == n,
                forall|v: int| 0 <= v < n ==> ((#[trigger] visited@[v]) <==> depth.dom().contains(v)),
                forall|v: int| #[trigger] depth.dom().contains(v) ==> 0 <= v < n && 0 <= depth[v],
                depth.dom().contains(si as int),
                depth[si as int] == 0,
                forall|q: int|
                    0 <= q < queue@.len() ==> depth.dom().contains(
                        (#[trigger] queue@[q]).0 as int,
                    ) && depth[queue@[q].0 as int] == queue@[q].1 as int && !processed.contains(
                        queue@[q].0 as int,
                    ),
                forall|q1: int, q2: int|
                    0 <= q1 < q2 < queue@.len() ==> (#[trigger] queue@[q1]).0 != (
                    #[trigger] queue@[q2]).0,
                forall|q1: int, q2: int|
                    0 <= q1 <= q2 < queue@.len() ==> (#[trigger] queue@[q1]).1 <= (
                    #[trigger] queue@[q2]).1 && queue@[q2].1 <= queue@[q1].1 + 1,
                forall|v: int|
                    #[trigger] depth.dom().contains(v) ==> processed.contains(v) || in_queue(
                        queue@,
                        v,
                    ),
                forall|u: int| #[trigger] processed.contains(u) ==> depth.dom().contains(u),
                queue@.len() > 0 ==> forall|u: int|
                    #[trigger] processed.contains(u) ==> depth[u] <= queue@[0].1,
                forall|u: int, e: int|
                    #![trigger processed.contains(u), g.ends[e]]
                    processed.contains(u) && depth[u] < k && edge_passes(g, e, filt) && g.ends[
                        e
                    ].0 as int == u ==> depth.dom().contains(g.ends[e].1 as int) && depth[g.ends[
                        e
                    ].1 as int] <= depth[u] + 1,
                forall|v: int|
                    #[trigger] depth.dom().contains(v) ==> reach_within(
                        g,
                        si as int,
                        v,
                        filt,
                        depth[v],
                    ),
                rec_nodes.no_duplicates(),
                forall|v: int|
                    #![trigger rec_nodes.contains(v)]
                    #![trigger processed.contains(v)]
                    rec_nodes.contains(v) <==> (processed.contains(v) && depth.dom().contains(v)
                        && depth[v] < k),
                forall|a: int| 0 <= a < rec_nodes.len() ==> 0 <= #[trigger] rec_nodes[a] < n,
                node_views(result_nodes@) == rec_nodes.map_values(|v: int| g.nodes[v]),
                rec_edges.no_duplicates(),
                forall|e: int|
                    #![trigger rec_edges.contains(e)]
                    #![trigger g.ends[e]]
                    rec_edges.contains(e) <==> (edge_passes(g, e, filt) && 0 <= e
                        < g.edges.len() && processed.contains(g.ends[e].0 as int) && depth[g.ends[
                        e
                    ].0 as int] < k),
                forall|a: int|
                    0 <= a < rec_edges.len() ==> 0 <= #[trigger] rec_edges[a] < g.edges.len(),
                edge_views(result_edges@) == rec_edges.map_values(|e: int| g.edges[e]),
                processed.finite(),
                processed.subset_of(set_int_range(0, n as int)),
                processed.len() <= n,
                vseq.len() >= 1,
                vseq[0] == si as int,
                forall|p: int|
                    0 <= p < vseq.len() ==> 0 <= #[trigger] vseq[p] < n && depth.dom().contains(
                        vseq[p],
                    ),
                vseq.no_duplicates(),
                forall|v: int| #[trigger] depth.dom().contains(v) ==> vseq.contains(v),
                vseq == popped + queue@.map_values(|qq: (usize, usize)| qq.0 as int),
                forall|u: int| #[trigger] processed.contains(u) ==> popped.contains(u),
                forall|p: int| 0 <= p < popped.len() ==> processed.contains(#[trigger] popped[p]),
                popped.no_duplicates(),
                rec_nodes == popped.take(rec_nodes.len() as int),
                rec_nodes.len() <= popped.len(),
                forall|p: int|
                    rec_nodes.len() <= p < popped.len() ==> depth[#[trigger] popped[p]] >= k,
                edge_views(result_edges@) == flat_edges(g, filt, node_views(result_nodes@)),
                vseq.map_values(|v: int| g.nodes[v]) == visit_order(
                    g,
                    si as int,
                    edge_views(result_edges@),
                ),
            decreases n - processed.len(),
        {
            let ghost preq = queue@;
            let ghost popped_entry = popped;
            let ghost rec_entry = rec_nodes;
            let front = queue.pop_front();
            let (cur, d) = match front {
                Some(p) => p,
                None => {
                    proof {
                        assert(false);
                    }
                    (0, 0)
                },
            };
            let ghost queue0 = queue@;
            assert(depth[cur as int] == d as int);
            assert(!processed.contains(cur as int));
            assert(forall|q: int|
                0 <= q < queue@.len() ==> d as int <= (#[trigger] queue@[q]).1 && queue@[q].1
                    <= d as int + 1);
            proof {
                assert forall|v: int| #[trigger] depth.dom().contains(v) implies processed.contains(
                    v,
                ) || in_queue(queue@, v) || v == cur as int by {
                    if !processed.contains(v) {
                        let qi = choose|i: int|
                            0 <= i < preq.len() && (#[trigger] preq[i]).0 as int == v;
                        if qi == 0 {
                            assert(v == cur as int);
                        } else {
                            assert(queue@[qi - 1] == preq[qi]);
                            assert(in_queue(queue@, v));
                        }
                    }
                }
                assert forall|q: int| 0 <= q < queue@.len() implies (#[trigger] queue@[q]).0 as int
                    != cur as int by {
                    assert(queue@[q] == preq[q + 1]);
                    assert(preq[0].0 == cur);
                }
                let ghost qmap0 = preq.map_values(|qq: (usize, usize)| qq.0 as int);
                let ghost qmap = queue@.map_values(|qq: (usize, usize)| qq.0 as int);
                assert(qmap0[0] == cur as int);
                assert(!popped.contains(cur as int));
                let ghost popped0 = popped;
                popped = popped.push(cur as int);
                assert forall|j: int| 0 <= j < qmap.len() implies qmap[j] == qmap0[j + 1] by {
                    assert(queue@[j] == preq[j + 1]);
                }
                assert(vseq =~= popped + qmap);
                assert(rec_nodes =~= popped.take(rec_nodes.len() as int));
                assert(forall|u: int| #[trigger] processed.contains(u) ==> depth[u] <= d as int);
            }
            if d < max_depth {
                let nd = &self.nodes[cur];
                let ghost r0 = node_views(result_nodes@);
                let ghost rn_before = node_views(result_nodes@);
                result_nodes.push(duplicate_node(nd));
                proof {
                    let ghost fmap = |v: int| g.nodes[v];
                    assert(!rec_nodes.contains(cur as int));
                    let ghost rec0 = rec_nodes;
                    rec_nodes = rec_nodes.push(cur as int);
                    lemma_seq_contains_after_push(rec0, cur as int, cur as int);
                    assert forall|v: int| #[trigger] rec_nodes.contains(v) implies (
                        processed.contains(v) || v == cur as int) && depth.dom().contains(v)
                        && depth[v] < k by {
                        lemma_seq_contains_after_push(rec0, cur as int, v);
                    }
                    assert forall|v: int|
                        (processed.contains(v) || v == cur as int) && depth.dom().contains(v)
                            && depth[v] < k implies #[trigger] rec_nodes.contains(v) by {
                        lemma_seq_contains_after_push(rec0, cur as int, v);
                    }
                    assert(node_views(result_nodes@) =~= r0.push(g.nodes[cur as int]));
                    assert(rec_nodes.map_values(fmap) =~= rec0.map_values(fmap).push(
                        g.nodes[cur as int],
                    ));
                    assert(node_views(result_nodes@) =~= rec_nodes.map_values(fmap));
                    assert(rec0 == rec_entry);
                    assert(popped == popped_entry.push(cur as int));
                    if rec_entry.len() < popped_entry.len() {
                        assert(depth[popped_entry[rec_entry.len() as int]] >= k);
                        assert(processed.contains(popped_entry[rec_entry.len() as int]));
                        assert(depth[popped_entry[rec_entry.len() as int]] <= d as int);
                        assert(false);
                    }
                    assert(rec0.len() == popped.len() - 1);
                    assert(rec_nodes =~= popped.take(rec_nodes.len() as int));
                    assert(edge_views(result_edges@) =~= flat_edges(g, filt, rn_before)
                        + edges_prefix(g, filt, cur as int, 0)) by {
                        reveal_with_fuel(Seq::<usize>::filter, 3);
                        assert(g.out[cur as int].take(0).filter(
                            |e2: usize| filt_ok(filt, g.edges[e2 as int].relationship),
                        ) =~= Seq::<usize>::empty());
                    }
                }
                let out_list = &self.outgoing[cur];
                let m = out_list.len();
                assert(out_list@ == g.out[cur as int]);
                let mut kk: usize = 0;
                #[verifier::loop_isolation(true)]
                while kk < m
                    invariant
                        self.wf(),
                        g == self@,
                        filt == opt_view(relationship_filter),
                        k == max_depth as int,
                        n == g.nodes.len(),
                        n == self.nodes@.len(),
                        g.edges.len() <= usize::MAX,
                        (si as int) < n,
                        (d as int) < k,
                        out_list@ == g.out[cur as int],
                        m == out_list@.len(),
                        node_views(result_nodes@) == rn_before.push(g.nodes[cur as int]),
                        kk <= m,
                        visited@.len() == n,
                        forall|v: int|
                            0 <= v < n ==> ((#[trigger] visited@[v]) <==> depth.dom().contains(v)),
                        forall|v: int|
                            #[trigger] depth.dom().contains(v) ==> 0 <= v < n && 0 <= depth[v],
                        depth.dom().contains(cur as int),
                        depth[cur as int] == d as int,
                        depth.dom().contains(si as int),
                        depth[si as int] == 0,
                        !processed.contains(cur as int),
                        forall|q: int|
                            0 <= q < queue@.len() ==> depth.dom().contains(
                                (#[trigger] queue@[q]).0 as int,
                            ) && depth[queue@[q].0 as int] == queue@[q].1 as int
                                && !processed.contains(queue@[q].0 as int) && queue@[q].0 as int
                                != cur as int,
                        forall|q1: int, q2: int|
                            0 <= q1 < q2 < queue@.len() ==> (#[trigger] queue@[q1]).0 != (
                            #[trigger] queue@[q2]).0,
                        forall|q1: int, q2: int|
                            0 <= q1 <= q2 < queue@.len() ==> (#[trigger] queue@[q1]).1 <= (
                            #[trigger] queue@[q2]).1,
                        forall|q: int|
                            0 <= q < queue@.len() ==> d as int <= (#[trigger] queue@[q]).1
                                && queue@[q].1 <= d as int + 1,
                        forall|v: int|
                            #[trigger] depth.dom().contains(v) ==> processed.contains(v)
                                || in_queue(queue@, v) || v == cur as int,
                        forall|u: int| #[trigger] processed.contains(u) ==> depth.dom().contains(u)
                            && depth[u] <= d as int,
                        forall|u: int, e: int|
                            #![trigger processed.contains(u), g.ends[e]]
                            processed.contains(u) && depth[u] < k && edge_passes(g, e, filt)
                                && g.ends[e].0 as int == u ==> depth.dom().contains(
                                g.ends[e].1 as int,
                            ) && depth[g.ends[e].1 as int] <= depth[u] + 1,
                        forall|x: int|
                            0 <= x < kk && edge_passes(
                                g,
                                (#[trigger] g.out[cur as int][x]) as int,
                                filt,
                            ) ==> depth.dom().contains(
                                g.ends[g.out[cur as int][x] as int].1 as int,
                            ) && depth[g.ends[g.out[cur as int][x] as int].1 as int] <= d as int
                                + 1,
                        forall|v: int|
                            #[trigger] depth.dom().contains(v) ==> reach_within(
                                g,
                                si as int,
                                v,
                                filt,
                                depth[v],
                            ),
                        rec_nodes.no_duplicates(),
                        forall|v: int|
                            #![trigger rec_nodes.contains(v)]
                            #![trigger processed.contains(v)]
                            rec_nodes.contains(v) <==> ((processed.contains(v) || v == cur as int)
                                && depth.dom().contains(v) && depth[v] < k),
                        forall|a: int| 0 <= a < rec_nodes.len() ==> 0 <= #[trigger] rec_nodes[a] < n,
                        node_views(result_nodes@) == rec_nodes.map_values(|v: int| g.nodes[v]),
                        rec_edges.no_duplicates(),
                        forall|e: int|
                            #![trigger rec_edges.contains(e)]
                            #![trigger g.ends[e]]
                            rec_edges.contains(e) <==> (edge_passes(g, e, filt) && 0 <= e
                                < g.edges.len() && ((processed.contains(g.ends[e].0 as int)
                                && depth[g.ends[e].0 as int] < k) || (g.ends[e].0 as int
                                == cur as int && exists|x: int|
                                0 <= x < kk && (#[trigger] g.out[cur as int][x]) as int == e))),
                        forall|a: int|
                            0 <= a < rec_edges.len() ==> 0 <= #[trigger] rec_edges[a]
                                < g.edges.len(),
                        edge_views(result_edges@) == rec_edges.map_values(|e: int| g.edges[e]),
                        vseq.len() >= 1,
                        vseq[0] == si as int,
                        forall|p: int|
                            0 <= p < vseq.len() ==> 0 <= #[trigger] vseq[p] < n
                                && depth.dom().contains(vseq[p]),
                        vseq.no_duplicates(),
                        forall|v: int| #[trigger] depth.dom().contains(v) ==> vseq.contains(v),
                        vseq == popped + queue@.map_values(|qq: (usize, usize)| qq.0 as int),
                        edge_views(result_edges@) == flat_edges(g, filt, rn_before) + edges_prefix(
                            g,
                            filt,
                            cur as int,
                            kk as int,
                        ),
                        vseq.map_values(|v: int| g.nodes[v]) == visit_order(
                            g,
                            si as int,
                            edge_views(result_edges@),
                        ),
                    decreases m - kk,
                {
                    let e = out_list[kk];
                    assert(out_entry_wf(g, cur as int, kk as int));
                    let edge = &self.edges[e];
                    assert(edge@ == g.edges[e as int]);
                    if passes_filter(edge, &relationship_filter) {
                        assert(edge_passes(g, e as int, filt));
                        let ghost re0 = edge_views(result_edges@);
                        result_edges.push(duplicate_edge(edge));
                        proof {
                            let ghost emap = |e2: int| g.edges[e2];
                            assert(!rec_edges.contains(e as int));
                            let ghost rece0 = rec_edges;
                            rec_edges = rec_edges.push(e as int);
                            assert forall|e2: int| #[trigger] rec_edges.contains(e2) implies (
                                edge_passes(g, e2, filt) && 0 <= e2 < g.edges.len() && ((
                                processed.contains(g.ends[e2].0 as int) && depth[g.ends[
                                    e2
                                ].0 as int] < k) || (g.ends[e2].0 as int == cur as int && exists|
                                    x: int,
                                |
                                    0 <= x < kk + 1 && (#[trigger] g.out[cur as int][x]) as int
                                        == e2))) by {
                                lemma_seq_contains_after_push(rece0, e as int, e2);
                                if e2 == e as int {
                                    assert(g.out[cur as int][kk as int] as int == e2);
                                }
                            }
                            assert forall|e2: int|
                                (edge_passes(g, e2, filt) && 0 <= e2 < g.edges.len() && ((
                                processed.contains(g.ends[e2].0 as int) && depth[g.ends[
                                    e2
                                ].0 as int] < k) || (g.ends[e2].0 as int == cur as int && exists|
                                    x: int,
                                |
                                    0 <= x < kk + 1 && (#[trigger] g.out[cur as int][x]) as int
                                        == e2))) implies #[trigger] rec_edges.contains(e2) by {
                                lemma_seq_contains_after_push(rece0, e as int, e2);
                                if g.ends[e2].0 as int == cur as int && !(
                                processed.contains(g.ends[e2].0 as int) && depth[g.ends[
                                    e2
                                ].0 as int] < k) {
                                    let x = choose|x: int|
                                        0 <= x < kk + 1 && (#[trigger] g.out[cur as int][x]) as int
                                            == e2;
                                    if x < kk {
                                        assert(rece0.contains(e2));
                                    } else {
                                        assert(e2 == e as int);
                                    }
                                }
                            }
                            assert(edge_views(result_edges@) =~= re0.push(g.edges[e as int]));
                            assert(rec_edges.map_values(emap) =~= rece0.map_values(emap).push(
                                g.edges[e as int],
                            ));
                            assert(edge_views(result_edges@) =~= rec_edges.map_values(emap));
                            reveal_with_fuel(Seq::<usize>::filter, 3);
                            assert(g.out[cur as int].take(kk as int + 1) =~= g.out[
                                cur as int
                            ].take(kk as int).push(e));
                            assert(g.out[cur as int].take(kk as int).push(e).drop_last() =~= g.out[
                                cur as int
                            ].take(kk as int));
                            assert(filt_ok(filt, g.edges[e as int].relationship));
                            assert(edges_prefix(g, filt, cur as int, kk as int + 1)
                                =~= edges_prefix(g, filt, cur as int, kk as int).push(
                                g.edges[e as int],
                            ));
                            assert(edge_views(result_edges@) =~= flat_edges(g, filt, rn_before)
                                + edges_prefix(g, filt, cur as int, kk as int + 1));
                        }
                        let tgt = self.ends[e].1;
                        assert(edge_wf(g, e as int));
                        assert((tgt as int) < n);
                        proof {
                            assert(g.edges[e as int].to == g.nodes[tgt as int].id);
                            lemma_node_idx_is(g, g.edges[e as int].to, tgt as int);
                            assert(target_rec(g, g.edges[e as int]) == g.nodes[tgt as int]);
                            lemma_visit_order_push(g, si as int, re0, g.edges[e as int]);
                        }
                        if !visited[tgt] {
                            proof {
                                assert(!depth.dom().contains(tgt as int));
                                if visit_order(g, si as int, re0).contains(g.nodes[tgt as int]) {
                                    let vm = vseq.map_values(|v: int| g.nodes[v]);
                                    assert(vm.contains(g.nodes[tgt as int]));
                                    let vi = choose|vi: int|
                                        0 <= vi < vm.len() && (#[trigger] vm[vi]) == g.nodes[
                                            tgt as int
                                        ];
                                    assert(vm[vi] == g.nodes[vseq[vi]]);
                                    lemma_node_records_injective(g, vseq[vi], tgt as int);
                                    assert(depth.dom().contains(vseq[vi]));
                                    assert(false);
                                }
                            }
                            visited.set(tgt, true);
                            let ghost qpre = queue@;
                            let ghost vseq0 = vseq;
                            queue.push_back((tgt, d + 1));
                            proof {
                                vseq = vseq.push(tgt as int);
                                let ghost depth0 = depth;
                                depth = depth.insert(tgt as int, d as int + 1);
                                let pw = choose|p: Seq<usize>|
                                    is_path(g, p, si as int, cur as int, filt) && p.len()
                                        <= d as int;
                                lemma_path_extend(g, pw, si as int, cur as int, e as int, filt);
                                assert(is_path(
                                    g,
                                    pw.push(e),
                                    si as int,
                                    tgt as int,
                                    filt,
                                ));
                                assert(pw.push(e).len() <= d as int + 1);
                                assert(reach_within(g, si as int, tgt as int, filt, d as int + 1));
                                assert forall|v: int| #[trigger] depth.dom().contains(v) implies
                                    reach_within(g, si as int, v, filt, depth[v]) by {
                                    if v != tgt as int {
                                        assert(depth0.dom().contains(v));
                                        assert(depth[v] == depth0[v]);
                                    }
                                }
                                assert forall|v: int| #[trigger] depth.dom().contains(v) implies
                                    processed.contains(v) || in_queue(queue@, v) || v
                                        == cur as int by {
                                    if v == tgt as int {
                                        assert(queue@[queue@.len() - 1].0 as int == v);
                                    } else {
                                        assert(depth0.dom().contains(v));
                                        if in_queue(qpre, v) {
                                            let qi = choose|i: int|
                                                0 <= i < qpre.len() && (#[trigger] qpre[i]).0
                                                    as int == v;
                                            assert(queue@[qi] == qpre[qi]);
                                        }
                                    }
                                }
                                assert(!vseq0.contains(tgt as int));
                                assert forall|a: int, b: int|
                                    0 <= a < b < vseq.len() implies (#[trigger] vseq[a]) != (
                                    #[trigger] vseq[b]) by {
                                    if b < vseq.len() - 1 {
                                        assert(vseq0[a] != vseq0[b]);
                                    } else {
                                        assert(vseq[a] == vseq0[a]);
                                        if vseq0.contains(vseq[b]) {
                                        }
                                        assert(vseq0[a] != tgt as int) by {
                                            if vseq0[a] == tgt as int {
                                                assert(vseq0.contains(tgt as int));
                                            }
                                        }
                                    }
                                }
                                assert forall|v: int| #[trigger] depth.dom().contains(v) implies
                                    vseq.contains(v) by {
                                    if v == tgt as int {
                                        assert(vseq[vseq.len() - 1] == v);
                                    } else {
                                        assert(depth0.dom().contains(v));
                                        assert(vseq0.contains(v));
                                        let vi = choose|vi: int|
                                            0 <= vi < vseq0.len() && (#[trigger] vseq0[vi]) == v;
                                        assert(vseq[vi] == v);
                                    }
                                }
                                assert(vseq =~= popped + queue@.map_values(
                                    |qq: (usize, usize)| qq.0 as int,
                                ));
                                assert(vseq.map_values(|v: int| g.nodes[v]) =~= vseq0.map_values(
                                    |v: int| g.nodes[v],
                                ).push(g.nodes[tgt as int]));
                                assert(vseq.map_values(|v: int| g.nodes[v]) =~= visit_order(
                                    g,
                                    si as int,
                                    edge_views(result_edges@),
                                ));
                            }
                        } else {
                            proof {
                                assert(depth.dom().contains(tgt as int));
                                assert(in_queue(queue@, tgt as int) || processed.contains(
                                    tgt as int,
                                ) || tgt as int == cur as int);
                                if processed.contains(tgt as int) {
                                    assert(depth[tgt as int] <= d as int);
                                } else if tgt as int == cur as int {
                                    assert(depth[tgt as int] == d as int);
                                } else {
                                    let qi = choose|i: int|
                                        0 <= i < queue@.len() && (#[trigger] queue@[i]).0 as int
                                            == tgt as int;
                                    assert(depth[tgt as int] <= d as int + 1);
                                }
                                assert(vseq.contains(tgt as int));
                                let vi = choose|vi: int|
                                    0 <= vi < vseq.len() && (#[trigger] vseq[vi]) == tgt as int;
                                assert(vseq.map_values(|v: int| g.nodes[v])[vi] == g.nodes[
                                    tgt as int
                                ]);
                                assert(visit_order(g, si as int, re0).contains(
                                    g.nodes[tgt as int],
                                ));
                                assert(vseq.map_values(|v: int| g.nodes[v]) == visit_order(
                                    g,
                                    si as int,
                                    edge_views(result_edges@),
                                ));
                            }
                        }
                    } else {
                        proof {
                            reveal_with_fuel(Seq::<usize>::filter, 3);
                            assert(!filt_ok(filt, g.edges[e as int].relationship));
                            assert(g.out[cur as int].take(kk as int + 1) =~= g.out[
                                cur as int
                            ].take(kk as int).push(e));
                            assert(g.out[cur as int].take(kk as int).push(e).drop_last() =~= g.out[
                                cur as int
                            ].take(kk as int));
                            assert(edges_prefix(g, filt, cur as int, kk as int + 1)
                                =~= edges_prefix(g, filt, cur as int, kk as int));
                        }
                    }
                    kk += 1;
                    proof {
                        let ghost queue1 = queue@;
                        assert(forall|q: int|
                            0 <= q < queue1.len() ==> d as int <= (#[trigger] queue1[q]).1
                                && queue1[q].1 <= d as int + 1);
                    }
                }
                proof {
                    let ghost processed0 = processed;
                    processed = processed.insert(cur as int);
                    lemma_int_range(0, n as int);
                    lemma_len_subset(processed, set_int_range(0, n as int));
                    assert(g.out[cur as int].take(m as int) =~= g.out[cur as int]);
                    lemma_node_idx_is(g, g.nodes[cur as int].id, cur as int);
                    assert(edges_prefix(g, filt, cur as int, m as int) == edges_of_rec(
                        g,
                        filt,
                        g.nodes[cur as int],
                    ));
                    lemma_flat_edges_push(g, filt, rn_before, g.nodes[cur as int]);
                    assert(node_views(result_nodes@) =~= rn_before.push(g.nodes[cur as int]));
                    assert(edge_views(result_edges@) =~= flat_edges(
                        g,
                        filt,
                        node_views(result_nodes@),
                    ));
                    assert(popped.last() == cur as int);
                    assert(popped.contains(cur as int));
                    assert(rec_nodes =~= popped.take(rec_nodes.len() as int));
                    assert forall|u: int, e: int|
                        #![trigger processed.contains(u), g.ends[e]]
                        processed.contains(u) && depth[u] < k && edge_passes(g, e, filt) && g.ends[
                            e
                        ].0 as int == u implies depth.dom().contains(g.ends[e].1 as int) && depth[
                            g.ends[e].1 as int
                        ] <= depth[u] + 1 by {
                        if u == cur as int && !processed0.contains(u) {
                            assert(edge_wf(g, e));
                            assert(g.out[cur as int].contains(e as usize));
                            let x = choose|x: int|
                                0 <= x < g.out[cur as int].len() && g.out[cur as int][x]
                                    == e as usize;
                            assert(g.out[cur as int][x] as int == e);
                        }
                    }
                    assert forall|v: int|
                        #![trigger rec_nodes.contains(v)]
                        #![trigger processed.contains(v)]
                        rec_nodes.contains(v) <==> (processed.contains(v) && depth.dom().contains(
                            v,
                        ) && depth[v] < k) by {}
                    assert forall|e: int|
                        #![trigger rec_edges.contains(e)]
                        #![trigger g.ends[e]]
                        rec_edges.contains(e) <==> (edge_passes(g, e, filt) && 0 <= e
                            < g.edges.len() && processed.contains(g.ends[e].0 as int) && depth[
                            g.ends[e].0 as int
                        ] < k) by {
                        if edge_passes(g, e, filt) && 0 <= e < g.edges.len() && g.ends[e].0 as int
                            == cur as int {
                            assert(edge_wf(g, e));
                            assert(g.out[cur as int].contains(e as usize));
                            let x = choose|x: int|
                                0 <= x < g.out[cur as int].len() && g.out[cur as int][x]
                                    == e as usize;
                            assert((#[trigger] g.out[cur as int][x]) as int == e);
                        }
                    }
                }
            } else {
                proof {
                    let ghost processed0 = processed;
                    processed = processed.insert(cur as int);
                    lemma_int_range(0, n as int);
                    lemma_len_subset(processed, set_int_range(0, n as int));
                    assert forall|u: int, e: int|
                        #![trigger processed.contains(u), g.ends[e]]
                        processed.contains(u) && depth[u] < k && edge_passes(g, e, filt) && g.ends[
                            e
                        ].0 as int == u implies depth.dom().contains(g.ends[e].1 as int) && depth[
                            g.ends[e].1 as int
                        ] <= depth[u] + 1 by {
                        assert(!(u == cur as int && !processed0.contains(u)));
                    }
                    assert(popped.last() == cur as int);
                    assert(popped.contains(cur as int));
                    assert forall|v: int| #[trigger] depth.dom().contains(v) implies
                        processed.contains(v) || in_queue(queue@, v) by {
                        if v != cur as int && in_queue(queue0, v) {
                            assert(in_queue(queue@, v));
                        }
                    }
                    assert forall|e: int|
                        #![trigger rec_edges.contains(e)]
                        #![trigger g.ends[e]]
                        rec_edges.contains(e) <==> (edge_passes(g, e, filt) && 0 <= e
                            < g.edges.len() && processed.contains(g.ends[e].0 as int) && depth[
                            g.ends[e].0 as int
                        ] < k) by {
                        if g.ends[e].0 as int == cur as int {
                            assert(depth[cur as int] == d as int);
                            assert(!(depth[g.ends[e].0 as int] < k));
                        }
                    }
                }
            }
            proof {
                assert forall|v: int| #[trigger] depth.dom().contains(v) implies processed.contains(
                    v,
                ) || in_queue(queue@, v) by {}
            }
        }
        proof {
            assert(queue@.len() == 0);
            assert forall|v: int| #[trigger] depth.dom().contains(v) implies processed.contains(
                v,
            ) by {
                assert(!in_queue(queue@, v));
            }
            assert(bfs_closed(g, filt, depth, processed, k));
            lemma_traverse_final(g, filt, depth, processed, rec_nodes, rec_edges, si as int, k);
            let rn = node_views(result_nodes@);
            let re = edge_views(result_edges@);
            assert(rn == rec_nodes.map_values(|v2: int| g.nodes[v2]));
            assert(re == rec_edges.map_values(|e2: int| g.edges[e2]));
            assert forall|a: int| 0 <= a < rn.len() implies g.nodes.contains(
                #[trigger] rn[a],
            ) by {
                assert(0 <= rec_nodes[a] < g.nodes.len());
                assert(rn[a] == g.nodes[rec_nodes[a]]);
            }
            assert forall|a: int| 0 <= a < re.len() implies g.edges.contains(
                #[trigger] re[a],
            ) by {
                assert(0 <= rec_edges[a] < g.edges.len());
                assert(re[a] == g.edges[rec_edges[a]]);
            }
            assert(node_idx(g, start_node@) == si as int);
            assert(has_node(g, start_node@));
            assert(rn.no_duplicates());
            assert(re.no_duplicates());
            assert forall|v: int| 0 <= v < g.nodes.len() implies (rn.contains(
                #[trigger] g.nodes[v],
            ) <==> reach_within(g, si as int, v, filt, k - 1)) by {}
            assert forall|e: int| 0 <= e < g.edges.len() implies (re.contains(
                #[trigger] g.edges[e],
            ) <==> (edge_passes(g, e, filt) && reach_within(
                g,
                si as int,
                g.ends[e].0 as int,
                filt,
                k - 1,
            ))) by {}
            assert(queue@.map_values(|qq: (usize, usize)| qq.0 as int) =~= Seq::<int>::empty());
            assert(vseq =~= popped + Seq::<int>::empty());
            assert(vseq =~= popped);
            assert(re == flat_edges(g, filt, rn));
            lemma_traverse_order(g, si as int, rec_nodes, popped, vseq, rn, re);
        }
        let paths: Vec<GraphPath> = Vec::new();
        GraphQueryResult { nodes: result_nodes, edges: result_edges, paths }
    }
}


/// Once the queue has drained, the recorded nodes are the prefix of the
/// visit order that was expanded.
proof fn lemma_traverse_order(
    g: GraphView,
    si: int,
    rec_nodes: Seq<int>,
    popped: Seq<int>,
    vseq: Seq<int>,
    rn: Seq<NodeView>,
    re: Seq<EdgeView>,
)
    requires
        vseq == popped,
        rec_nodes == popped.take(rec_nodes.len() as int),
        rec_nodes.len() <= popped.len(),
        rn == rec_nodes.map_values(|v: int| g.nodes[v]),
        vseq.map_values(|v: int| g.nodes[v]) == visit_order(g, si, re),
    ensures
        rn == visit_order(g, si, re).take(rn.len() as int),
{
    assert(rn.len() == rec_nodes.len());
    assert(visit_order(g, si, re).len() == vseq.len());
    assert forall|i: int| 0 <= i < rn.len() implies rn[i] == visit_order(g, si, re).take(
        rn.len() as int,
    )[i] by {
        assert(rn[i] == g.nodes[rec_nodes[i]]);
        assert(rec_nodes[i] == popped.take(rec_nodes.len() as int)[i]);
        assert(popped[i] == vseq[i]);
        assert(vseq.map_values(|v: int| g.nodes[v])[i] == g.nodes[vseq[i]]);
    }
    assert(rn =~= visit_order(g, si, re).take(rn.len() as int));
}

/// Once the queue has drained, the recorded indices are exactly the nodes
/// within the depth bound and the filtered edges leaving them.
proof fn lemma_traverse_final(
    g: GraphView,
    filt: Option<Seq<char>>,
    depth: Map<int, int>,
    processed: Set<int>,
    rec_nodes: Seq<int>,
    rec_edges: Seq<int>,
    si: int,
    k: int,
)
    requires
        g_wf(g),
        0 <= si < g.nodes.len(),
        depth.dom().contains(si),
        depth[si] == 0,
        bfs_closed(g, filt, depth, processed, k),
        forall|v: int|
            #[trigger] depth.dom().contains(v) ==> reach_within(g, si, v, filt, depth[v]),
        rec_nodes.no_duplicates(),
        forall|a: int| 0 <= a < rec_nodes.len() ==> 0 <= #[trigger] rec_nodes[a] < g.nodes.len(),
        forall|v: int|
            #![trigger rec_nodes.contains(v)]
            #![trigger processed.contains(v)]
            rec_nodes.contains(v) <==> (processed.contains(v) && depth.dom().contains(v)
                && depth[v] < k),
        rec_edges.no_duplicates(),
        forall|a: int| 0 <= a < rec_edges.len() ==> 0 <= #[trigger] rec_edges[a] < g.edges.len(),
        forall|e: int|
            #![trigger rec_edges.contains(e)]
            #![trigger g.ends[e]]
            rec_edges.contains(e) <==> (edge_passes(g, e, filt) && 0 <= e < g.edges.len()
                && processed.contains(g.ends[e].0 as int) && depth[g.ends[e].0 as int] < k),
    ensures
        rec_nodes.map_values(|v: int| g.nodes[v]).no_duplicates(),
        forall|v: int|
            0 <= v < g.nodes.len() ==> (rec_nodes.map_values(|v2: int| g.nodes[v2]).contains(
                #[trigger] g.nodes[v],
            ) <==> reach_within(g, si, v, filt, k - 1)),
        forall|a: int|
            #![trigger rec_nodes[a]]
            0 <= a < rec_nodes.len() ==> 0 <= rec_nodes[a] < g.nodes.len()
                && rec_nodes.map_values(|v2: int| g.nodes[v2])[a] == g.nodes[rec_nodes[a]],
        rec_edges.map_values(|e: int| g.edges[e]).no_duplicates(),
        forall|e: int|
            0 <= e < g.edges.len() ==> (rec_edges.map_values(|e2: int| g.edges[e2]).contains(
                #[trigger] g.edges[e],
            ) <==> (edge_passes(g, e, filt) && reach_within(
                g,
                si,
                g.ends[e].0 as int,
                filt,
                k - 1,
            ))),
        forall|a: int|
            #![trigger rec_edges[a]]
            0 <= a < rec_edges.len() ==> 0 <= rec_edges[a] < g.edges.len()
                && rec_edges.map_values(|e2: int| g.edges[e2])[a] == g.edges[rec_edges[a]],
{
    let fmap = |v: int| g.nodes[v];
    let emap = |e: int| g.edges[e];
    lemma_node_map_facts(g, rec_nodes);
    lemma_edge_map_facts(g, rec_edges);
    assert forall|v: int| 0 <= v < g.nodes.len() implies (rec_nodes.map_values(fmap).contains(
        #[trigger] g.nodes[v],
    ) <==> reach_within(g, si, v, filt, k - 1)) by {
        if reach_within(g, si, v, filt, k - 1) {
            let p = choose|p: Seq<usize>| is_path(g, p, si, v, filt) && p.len() <= k - 1;
            lemma_bfs_cover(g, filt, depth, processed, k, si, p, v);
            assert(rec_nodes.contains(v));
        }
        if rec_nodes.contains(v) {
            assert(depth[v] <= k - 1);
            lemma_reach_within_mono(g, si, v, filt, depth[v], k - 1);
        }
    }
    assert forall|e: int| 0 <= e < g.edges.len() implies (rec_edges.map_values(emap).contains(
        #[trigger] g.edges[e],
    ) <==> (edge_passes(g, e, filt) && reach_within(g, si, g.ends[e].0 as int, filt, k - 1))) by {
        let src = g.ends[e].0 as int;
        if edge_passes(g, e, filt) && reach_within(g, si, src, filt, k - 1) {
            let p = choose|p: Seq<usize>| is_path(g, p, si, src, filt) && p.len() <= k - 1;
            lemma_bfs_cover(g, filt, depth, processed, k, si, p, src);
            assert(rec_edges.contains(e));
        }
        if rec_edges.contains(e) {
            assert(depth[src] <= k - 1);
            lemma_reach_within_mono(g, si, src, filt, depth[src], k - 1);
        }
    }
    assert forall|a: int| #![trigger rec_nodes[a]] 0 <= a < rec_nodes.len() implies 0 <= rec_nodes[a]
        < g.nodes.len() && rec_nodes.map_values(|v2: int| g.nodes[v2])[a] == g.nodes[
        rec_nodes[a]
    ] by {
        assert(rec_nodes.map_values(|v2: int| g.nodes[v2])[a] == g.nodes[rec_nodes[a]]);
    }
    assert forall|a: int| #![trigger rec_edges[a]] 0 <= a < rec_edges.len() implies 0 <= rec_edges[a]
        < g.edges.len() && rec_edges.map_values(|e2: int| g.edges[e2])[a] == g.edges[
        rec_edges[a]
    ] by {
        assert(rec_edges.map_values(|e2: int| g.edges[e2])[a] == g.edges[rec_edges[a]]);
    }
}


/// Reversing and then taking views is taking views and then reversing.
proof fn lemma_node_views_reverse(v: Seq<GraphNode>)
    ensures
        node_views(v.reverse()) == node_views(v).reverse(),
{
    assert forall|i: int| 0 <= i < v.len() implies node_views(v.reverse())[i] == node_views(
        v,
    ).reverse()[i] by {
        assert(v.reverse()[i] == v[v.len() - 1 - i]);
        assert(node_views(v.reverse())[i] == v.reverse()[i]@);
        assert(node_views(v).reverse()[i] == node_views(v)[v.len() - 1 - i]);
        assert(node_views(v)[v.len() - 1 - i] == v[v.len() - 1 - i]@);
    }
    assert(node_views(v.reverse()) =~= node_views(v).reverse());
}

proof fn lemma_edge_views_reverse(v: Seq<GraphEdge>)
    ensures
        edge_views(v.reverse()) == edge_views(v).reverse(),
{
    assert forall|i: int| 0 <= i < v.len() implies edge_views(v.reverse())[i] == edge_views(
        v,
    ).reverse()[i] by {
        assert(v.reverse()[i] == v[v.len() - 1 - i]);
        assert(edge_views(v.reverse())[i] == v.reverse()[i]@);
        assert(edge_views(v).reverse()[i] == edge_views(v)[v.len() - 1 - i]);
        assert(edge_views(v)[v.len() - 1 - i] == v[v.len() - 1 - i]@);
    }
    assert(edge_views(v.reverse()) =~= edge_views(v).reverse());
}

/// Reversal moves a pushed element to the front.
proof fn lemma_reverse_push<A>(s: Seq<A>, x: A)
    ensures
        s.push(x).reverse() == seq![x] + s.reverse(),
{
    assert forall|i: int| 0 <= i < s.len() + 1 implies s.push(x).reverse()[i] == (seq![x]
        + s.reverse())[i] by {
        assert(s.push(x).reverse()[i] == s.push(x)[s.len() - i]);
        if i == 0 {
            assert(s.push(x)[s.len() as int] == x);
        } else {
            assert(s.push(x)[s.len() - i] == s[s.len() - i]);
            assert((seq![x] + s.reverse())[i] == s.reverse()[i - 1]);
            assert(s.reverse()[i - 1] == s[s.len() - i]);
        }
    }
    assert(s.push(x).reverse() =~= seq![x] + s.reverse());
}

/// Reversal moves a prepended element to the back.
proof fn lemma_reverse_cons<A>(x: A, s: Seq<A>)
    ensures
        (seq![x] + s).reverse() == s.reverse().push(x),
{
    let c = seq![x] + s;
    assert forall|i: int| 0 <= i < c.len() implies c.reverse()[i] == s.reverse().push(x)[i] by {
        assert(c.reverse()[i] == c[c.len() - 1 - i]);
        if i == s.len() {
            assert(c[0] == x);
        } else {
            assert(c[c.len() - 1 - i] == s[s.len() - 1 - i]);
            assert(s.reverse().push(x)[i] == s.reverse()[i]);
            assert(s.reverse()[i] == s[s.len() - 1 - i]);
        }
    }
    assert(c.reverse() =~= s.reverse().push(x));
}

/// Reversing twice restores the sequence.
proof fn lemma_reverse_reverse<A>(s: Seq<A>)
    ensures
        s.reverse().reverse() == s,
{
    assert forall|i: int| 0 <= i < s.len() implies s.reverse().reverse()[i] == s[i] by {
        assert(s.reverse().reverse()[i] == s.reverse()[s.len() - 1 - i]);
        assert(s.reverse()[s.len() - 1 - i] == s[i]);
    }
    assert(s.reverse().reverse() =~= s);
}

/// Both endpoints exist and a filtered path connects them.
pub open spec fn fsp_found(
    g: GraphView,
    start: Seq<char>,
    end: Seq<char>,
    filt: Option<Seq<char>>,
) -> bool {
    &&& has_node(g, start)
    &&& has_node(g, end)
    &&& reachable(g, node_idx(g, start), node_idx(g, end), filt)
}

/// `pe` is a shortest filtered path from `start` to `end`, and `rn` and `re`
/// are exactly its node chain and edge records.
pub open spec fn fsp_path_witness(
    g: GraphView,
    start: Seq<char>,
    end: Seq<char>,
    filt: Option<Seq<char>>,
    pe: Seq<usize>,
    rn: Seq<NodeView>,
    re: Seq<EdgeView>,
) -> bool {
    let si = node_idx(g, start);
    let ti = node_idx(g, end);
    &&& is_path(g, pe, si, ti, filt)
    &&& (forall|p2: Seq<usize>| #[trigger] is_path(g, p2, si, ti, filt) ==> p2.len() >= pe.len())
    &&& re == pe.map_values(|e: usize| g.edges[e as int])
    &&& rn == seq![g.nodes[si]] + pe.map_values(|e: usize| g.nodes[g.ends[e as int].1 as int])
}

/// A vector with the same elements in the opposite order.
fn reverse_vec<T>(v: Vec<T>) -> (r: Vec<T>)
    ensures
        r@ == v@.reverse(),
{
    let ghost orig = v@;
    let mut v = v;
    let mut r: Vec<T> = Vec::new();
    while v.len() > 0
        invariant
            v@.len() <= orig.len(),
            v@ == orig.take(v@.len() as int),
            r@ =~= orig.skip(v@.len() as int).reverse(),
        decreases v@.len(),
    {
        let ghost vpre = v@;
        let ghost rpre = r@;
        let x = match v.pop() {
            Some(x) => x,
            None => {
                proof {
                    assert(false);
                }
                unreached()
            },
        };
        r.push(x);
        proof {
            let ghost ln = v@.len() as int;
            assert(v@ =~= vpre.drop_last());
            assert(vpre == orig.take(ln + 1));
            assert forall|i: int| 0 <= i < ln implies v@[i] == orig[i] by {
                assert(v@[i] == vpre.drop_last()[i]);
                assert(vpre.drop_last()[i] == vpre[i]);
                assert(vpre[i] == orig.take(ln + 1)[i]);
                assert(orig.take(ln + 1)[i] == orig[i]);
            }
            assert(v@ =~= orig.take(ln));
            let ghost tail = orig.skip(ln);
            let ghost tail1 = orig.skip(ln + 1);
            assert(x == vpre[ln]);
            assert(vpre[ln] == orig[ln]);
            assert(tail.reverse().len() == tail.len());
            assert forall|i: int| 0 <= i < tail.len() implies tail.reverse()[i] == orig[
                orig.len() - 1 - i
            ] by {
                assert(tail.reverse()[i] == tail[tail.len() - 1 - i]);
                assert(tail[tail.len() - 1 - i] == orig[ln + tail.len() - 1 - i]);
            }
            assert forall|i: int| 0 <= i < tail1.len() implies tail1.reverse()[i] == orig[
                orig.len() - 1 - i
            ] by {
                assert(tail1.reverse()[i] == tail1[tail1.len() - 1 - i]);
                assert(tail1[tail1.len() - 1 - i] == orig[ln + 1 + tail1.len() - 1 - i]);
            }
            assert(r@ =~= rpre.push(x));
            assert forall|i: int| 0 <= i < r@.len() implies r@[i] == tail.reverse()[i] by {
                if i < rpre.len() {
                    assert(rpre[i] == tail1.reverse()[i]);
                } else {
                    assert(r@[i] == x);
                    assert(tail.reverse()[i] == orig[orig.len() - 1 - i]);
                    assert(orig.len() - 1 - i == ln);
                }
            }
            assert(r@ =~= tail.reverse());
        }
    }
    proof {
        assert(orig.skip(0) =~= orig);
    }
    r
}

/// Copies of the node records with equal views.
fn duplicate_nodes(v: &Vec<GraphNode>) -> (r: Vec<GraphNode>)
    ensures
        node_views(r@) == node_views(v@),
{
    let n = v.len();
    let mut r: Vec<GraphNode> = Vec::new();
    let mut i: usize = 0;
    while i < n
        invariant
            n == v@.len(),
            i <= n,
            r@.len() == i,
            forall|j: int| 0 <= j < i ==> (#[trigger] r@[j])@ == v@[j]@,
        decreases n - i,
    {
        r.push(duplicate_node(&v[i]));
        i += 1;
    }
    proof {
        assert(node_views(r@) =~= node_views(v@));
    }
    r
}

/// Copies of the edge records with equal views.
fn duplicate_edges(v: &Vec<GraphEdge>) -> (r: Vec<GraphEdge>)
    ensures
        edge_views(r@) == edge_views(v@),
{
    let n = v.len();
    let mut r: Vec<GraphEdge> = Vec::new();
    let mut i: usize = 0;
    while i < n
        invariant
            n == v@.len(),
            i <= n,
            r@.len() == i,
            forall|j: int| 0 <= j < i ==> (#[trigger] r@[j])@ == v@[j]@,
        decreases n - i,
    {
        r.push(duplicate_edge(&v[i]));
        i += 1;
    }
    proof {
        assert(edge_views(r@) =~= edge_views(v@));
    }
    r
}

impl GraphDatabase {
    /// Breadth-first shortest path in hop count from `start` to `end` over
    /// the edges that pass the filter, ties broken by adjacency order. An
    /// unknown endpoint or an unreachable `end` yields an empty result.
    #[verifier::loop_isolation(false)]
    #[verifier::rlimit(100)]
    pub fn find_shortest_path(&self, start: &str, end: &str, relationship_filter: Option<String>)
        -> (r: GraphQueryResult)
        requires
            self.wf(),
        ensures
            fsp_found(self@, start@, end@, opt_view(relationship_filter)) ==> {
                &&& r.paths@.len() == 1
                &&& (exists|pe: Seq<usize>|
                    fsp_path_witness(
                        self@,
                        start@,
                        end@,
                        opt_view(relationship_filter),
                        pe,
                        node_views(r.nodes@),
                        edge_views(r.edges@),
                    ))
                &&& node_views(r.paths@[0].nodes@) == node_views(r.nodes@)
                &&& edge_views(r.paths@[0].edges@) == edge_views(r.edges@)
                &&& r.paths@[0].length == r.edges@.len()
                &&& r.nodes@.len() == r.edges@.len() + 1
            },
            !fsp_found(self@, start@, end@, opt_view(relationship_filter)) ==> r.nodes@.len() == 0
                && r.edges@.len() == 0 && r.paths@.len() == 0,
    {
        let ghost g = self@;
        let ghost filt = opt_view(relationship_filter);
        let start_key = start.to_owned();
        let end_key = end.to_owned();
        let si = match self.find_node(&start_key) {
            Some(i) => i,
            None => {
                return GraphQueryResult {
                    nodes: Vec::new(),
                    edges: Vec::new(),
                    paths: Vec::new(),
                };
            },
        };
        let ti = match self.find_node(&end_key) {
            Some(i) => i,
            None => {
                return GraphQueryResult {
                    nodes: Vec::new(),
                    edges: Vec::new(),
                    paths: Vec::new(),
                };
            },
        };
        proof {
            lemma_node_idx_is(g, start@, si as int);
            lemma_node_idx_is(g, end@, ti as int);
        }
        let n = self.nodes.len();
        let edge_total = self.edges.len();
        assert(g.edges.len() == edge_total);
        let mut visited: Vec<bool> = vec![false; n];
        visited.set(si, true);
        let mut parent_node: Vec<usize> = vec![0; n];
        let mut parent_edge: Vec<usize> = vec![0; n];
        let mut queue: VecDeque<usize> = VecDeque::new();
        queue.push_back(si);
        let ghost mut depth: Map<int, int> = Map::<int, int>::empty().insert(si as int, 0);
        let ghost mut processed: Set<int> = Set::<int>::empty();
        proof {
            lemma_int_range(0, n as int);
            assert(queue@[0] as int == si as int);
            assert forall|v: int| #[trigger] depth.dom().contains(v) implies processed.contains(v)
                || queue@.contains(v as usize) by {
                assert(queue@[0] == v as usize);
            }
        }
        while queue.len() > 0
            invariant
                visited@.len() == n,
                parent_node@.len() == n,
                parent_edge@.len() == n,
                forall|v: int| 0 <= v < n ==> ((#[trigger] visited@[v]) <==> depth.dom().contains(v)),
                forall|v: int| #[trigger] depth.dom().contains(v) ==> 0 <= v < n && 0 <= depth[v],
                depth.dom().contains(si as int),
                depth[si as int] == 0,
                forall|q: int|
                    0 <= q < queue@.len() ==> depth.dom().contains(
                        (#[trigger] queue@[q]) as int,
                    ) && !processed.contains(queue@[q] as int),
                forall|q1: int, q2: int|
                    0 <= q1 < q2 < queue@.len() ==> (#[trigger] queue@[q1]) != (
                    #[trigger] queue@[q2]),
                forall|q1: int, q2: int|
                    0 <= q1 <= q2 < queue@.len() ==> depth[(#[trigger] queue@[q1]) as int]
                        <= depth[(#[trigger] queue@[q2]) as int] && depth[queue@[q2] as int]
                        <= depth[queue@[q1] as int] + 1,
                forall|v: int|
                    #[trigger] depth.dom().contains(v) ==> processed.contains(v)
                        || queue@.contains(v as usize),
                forall|u: int| #[trigger] processed.contains(u) ==> depth.dom().contains(u),
                queue@.len() > 0 ==> forall|u: int|
                    #[trigger] processed.contains(u) ==> depth[u] <= depth[queue@[0] as int],
                forall|u: int, e: int|
                    #![trigger processed.contains(u), g.ends[e]]
                    processed.contains(u) && edge_passes(g, e, filt) && g.ends[e].0 as int == u
                        ==> depth.dom().contains(g.ends[e].1 as int) && depth[g.ends[e].1 as int]
                        <= depth[u] + 1,
                forall|v: int|
                    #![trigger parent_node@[v]]
                    #![trigger parent_edge@[v]]
                    depth.dom().contains(v) && v != si as int ==> {
                        let e = parent_edge@[v] as int;
                        let u = parent_node@[v] as int;
                        &&& 0 <= e < g.edges.len()
                        &&& edge_passes(g, e, filt)
                        &&& g.ends[e].1 as int == v
                        &&& g.ends[e].0 as int == u
                        &&& depth.dom().contains(u)
                        &&& depth[u] + 1 == depth[v]
                    },
                !processed.contains(ti as int),
                processed.finite(),
                processed.subset_of(set_int_range(0, n as int)),
                processed.len() <= n,
            decreases n - processed.len(),
        {
            let ghost preq = queue@;
            let front = queue.pop_front();
            let cur = match front {
                Some(p) => p,
                None => {
                    proof {
                        assert(false);
                    }
                    0
                },
            };
            let ghost d = depth[cur as int];
            proof {
                assert forall|v: int| #[trigger] depth.dom().contains(v) implies processed.contains(
                    v,
                ) || queue@.contains(v as usize) || v == cur as int by {
                    if !processed.contains(v) {
                        let qi = choose|i: int|
                            0 <= i < preq.len() && (#[trigger] preq[i]) as int == v;
                        if qi == 0 {
                            assert(v == cur as int);
                        } else {
                            assert(queue@[qi - 1] == preq[qi]);
                            assert(queue@.contains(v as usize));
                        }
                    }
                }
                assert forall|q: int| 0 <= q < queue@.len() implies (#[trigger] queue@[q])
                    != cur by {
                    assert(queue@[q] == preq[q + 1]);
                    assert(preq[0] == cur);
                }
                assert(forall|q: int|
                    0 <= q < queue@.len() ==> d <= depth[(#[trigger] queue@[q]) as int]
                        && depth[queue@[q] as int] <= d + 1);
            }
            if cur == ti {
                proof {
                    assert forall|p2: Seq<usize>|
                        #[trigger] is_path(g, p2, si as int, ti as int, filt) implies p2.len()
                        >= d by {
                        if p2.len() < d {
                            assert forall|u: int|
                                #[trigger] depth.dom().contains(u) && depth[u] < d implies
                                processed.contains(u) by {
                                if queue@.contains(u as usize) {
                                    let qi = choose|i: int|
                                        0 <= i < queue@.len() && (#[trigger] queue@[i]) as int == u;
                                    assert(depth[queue@[qi] as int] >= d);
                                }
                                assert(u != cur as int || depth[u] == d);
                            }
                            assert(bfs_closed(g, filt, depth, processed, d));
                            lemma_bfs_cover(g, filt, depth, processed, d, si as int, p2, ti as int);
                        }
                    }
                }
                let mut rev_nodes: Vec<GraphNode> = Vec::new();
                let mut rev_edges: Vec<GraphEdge> = Vec::new();
                let mut walk: usize = ti;
                let ghost tmap = |e: usize| g.nodes[g.ends[e as int].1 as int];
                let ghost emap = |e: usize| g.edges[e as int];
                let ghost mut fwd: Seq<usize> = Seq::empty();
                proof {
                    assert(is_path(g, fwd, walk as int, ti as int, filt));
                    assert(node_views(rev_nodes@) =~= fwd.map_values(tmap).reverse());
                    assert(edge_views(rev_edges@) =~= fwd.map_values(emap).reverse());
                }
                while walk != si
                    invariant
                        depth.dom().contains(walk as int),
                        (walk as int) < n,
                        is_path(g, fwd, walk as int, ti as int, filt),
                        fwd.len() == d - depth[walk as int],
                        node_views(rev_nodes@) == fwd.map_values(tmap).reverse(),
                        edge_views(rev_edges@) == fwd.map_values(emap).reverse(),
                    decreases depth[walk as int],
                {
                    let u = parent_node[walk];
                    let e = parent_edge[walk];
                    assert(g.ends[e as int].1 as int == walk as int);
                    assert(edge_passes(g, e as int, filt));
                    let ghost fwd0 = fwd;
                    let ghost rn0 = node_views(rev_nodes@);
                    let ghost re0 = edge_views(rev_edges@);
                    rev_nodes.push(duplicate_node(&self.nodes[walk]));
                    rev_edges.push(duplicate_edge(&self.edges[e]));
                    proof {
                        lemma_path_cons(g, e as int, fwd, walk as int, ti as int, filt);
                        fwd = seq![e] + fwd;
                        assert(is_path(g, fwd, g.ends[e as int].0 as int, ti as int, filt));
                        assert(node_views(rev_nodes@) =~= rn0.push(g.nodes[walk as int]));
                        assert(edge_views(rev_edges@) =~= re0.push(g.edges[e as int]));
                        assert(fwd.map_values(tmap) =~= seq![tmap(e)] + fwd0.map_values(tmap));
                        assert(fwd.map_values(emap) =~= seq![emap(e)] + fwd0.map_values(emap));
                        lemma_reverse_cons(tmap(e), fwd0.map_values(tmap));
                        lemma_reverse_cons(emap(e), fwd0.map_values(emap));
                        assert(tmap(e) == g.nodes[walk as int]);
                        assert(emap(e) == g.edges[e as int]);
                        assert(node_views(rev_nodes@) =~= fwd.map_values(tmap).reverse());
                        assert(edge_views(rev_edges@) =~= fwd.map_values(emap).reverse());
                    }
                    walk = u;
                }
                assert(depth[walk as int] == 0);
                assert(fwd.len() == d);
                assert(is_path(g, fwd, si as int, ti as int, filt));
                let ghost rev0 = node_views(rev_nodes@);
                rev_nodes.push(duplicate_node(&self.nodes[si]));
                proof {
                    assert(node_views(rev_nodes@) =~= rev0.push(g.nodes[si as int]));
                }
                proof {
                    lemma_node_views_reverse(rev_nodes@);
                    lemma_edge_views_reverse(rev_edges@);
                    lemma_reverse_push(fwd.map_values(tmap).reverse(), g.nodes[si as int]);
                    lemma_reverse_reverse(fwd.map_values(tmap));
                    lemma_reverse_reverse(fwd.map_values(emap));
                }
                let nodes_fwd = reverse_vec(rev_nodes);
                let edges_fwd = reverse_vec(rev_edges);
                proof {
                    assert(nodes_fwd@ == rev_nodes@.reverse());
                    assert(node_views(nodes_fwd@) =~= seq![g.nodes[si as int]] + fwd.map_values(
                        tmap,
                    ));
                    assert(edge_views(edges_fwd@) =~= fwd.map_values(emap));
                    assert(fsp_path_witness(
                        g,
                        start@,
                        end@,
                        filt,
                        fwd,
                        node_views(nodes_fwd@),
                        edge_views(edges_fwd@),
                    ));
                    assert(fsp_found(g, start@, end@, filt));
                }
                let length = edges_fwd.len();
                let path_nodes = duplicate_nodes(&nodes_fwd);
                let path_edges = duplicate_edges(&edges_fwd);
                let path = GraphPath { nodes: path_nodes, edges: path_edges, length };
                let mut paths: Vec<GraphPath> = Vec::new();
                paths.push(path);
                let result = GraphQueryResult { nodes: nodes_fwd, edges: edges_fwd, paths };
                proof {
                    assert(fsp_path_witness(
                        g,
                        start@,
                        end@,
                        filt,
                        fwd,
                        node_views(result.nodes@),
                        edge_views(result.edges@),
                    ));
                    assert(exists|pe: Seq<usize>|
                        fsp_path_witness(
                            g,
                            start@,
                            end@,
                            filt,
                            pe,
                            node_views(result.nodes@),
                            edge_views(result.edges@),
                        ));
                }
                return result;
            }
            let out_list = &self.outgoing[cur];
            let m = out_list.len();
            assert(out_list@ == g.out[cur as int]);
            let mut kk: usize = 0;
            while kk < m
                invariant
                    kk <= m,
                    visited@.len() == n,
                    parent_node@.len() == n,
                    parent_edge@.len() == n,
                    forall|v: int|
                        0 <= v < n ==> ((#[trigger] visited@[v]) <==> depth.dom().contains(v)),
                    forall|v: int| #[trigger] depth.dom().contains(v) ==> 0 <= v < n && 0 <= depth[v],
                    depth.dom().contains(cur as int),
                    depth[cur as int] == d,
                    depth.dom().contains(si as int),
                    depth[si as int] == 0,
                    !processed.contains(cur as int),
                    forall|q: int|
                        0 <= q < queue@.len() ==> depth.dom().contains(
                            (#[trigger] queue@[q]) as int,
                        ) && !processed.contains(queue@[q] as int) && queue@[q] != cur,
                    forall|q1: int, q2: int|
                        0 <= q1 < q2 < queue@.len() ==> (#[trigger] queue@[q1]) != (
                        #[trigger] queue@[q2]),
                    forall|q1: int, q2: int|
                        0 <= q1 <= q2 < queue@.len() ==> depth[(#[trigger] queue@[q1]) as int]
                            <= depth[(#[trigger] queue@[q2]) as int],
                    forall|q: int|
                        0 <= q < queue@.len() ==> d <= depth[(#[trigger] queue@[q]) as int]
                            && depth[queue@[q] as int] <= d + 1,
                    forall|v: int|
                        #[trigger] depth.dom().contains(v) ==> processed.contains(v)
                            || queue@.contains(v as usize) || v == cur as int,
                    forall|u: int| #[trigger] processed.contains(u) ==> depth.dom().contains(u)
                        && depth[u] <= d,
                    forall|u: int, e: int|
                        #![trigger processed.contains(u), g.ends[e]]
                        processed.contains(u) && edge_passes(g, e, filt) && g.ends[e].0 as int == u
                            ==> depth.dom().contains(g.ends[e].1 as int) && depth[g.ends[
                            e
                        ].1 as int] <= depth[u] + 1,
                    forall|x: int|
                        0 <= x < kk && edge_passes(
                            g,
                            (#[trigger] g.out[cur as int][x]) as int,
                            filt,
                        ) ==> depth.dom().contains(
                            g.ends[g.out[cur as int][x] as int].1 as int,
                        ) && depth[g.ends[g.out[cur as int][x] as int].1 as int] <= d + 1,
                    forall|v: int|
                        #![trigger parent_node@[v]]
                        #![trigger parent_edge@[v]]
                        depth.dom().contains(v) && v != si as int ==> {
                            let e = parent_edge@[v] as int;
                            let u = parent_node@[v] as int;
                            &&& 0 <= e < g.edges.len()
                            &&& edge_passes(g, e, filt)
                            &&& g.ends[e].1 as int == v
                            &&& g.ends[e].0 as int == u
                            &&& depth.dom().contains(u)
                            &&& depth[u] + 1 == depth[v]
                        },
                    !processed.contains(ti as int),
                    cur != ti,
                decreases m - kk,
            {
                let e = out_list[kk];
                assert(out_entry_wf(g, cur as int, kk as int));
                let edge = &self.edges[e];
                assert(edge@ == g.edges[e as int]);
                if passes_filter(edge, &relationship_filter) {
                    assert(edge_passes(g, e as int, filt));
                    let tgt = self.ends[e].1;
                    assert(edge_wf(g, e as int));
                    assert((tgt as int) < n);
                    if !visited[tgt] {
                        visited.set(tgt, true);
                        parent_node.set(tgt, cur);
                        parent_edge.set(tgt, e);
                        let ghost qpre = queue@;
                        queue.push_back(tgt);
                        proof {
                            let ghost depth0 = depth;
                            depth = depth.insert(tgt as int, d + 1);
                            assert forall|v: int| #[trigger] depth.dom().contains(v) implies
                                processed.contains(v) || queue@.contains(v as usize) || v
                                    == cur as int by {
                                if v == tgt as int {
                                    assert(queue@[queue@.len() - 1] as int == v);
                                } else {
                                    assert(depth0.dom().contains(v));
                                    if qpre.contains(v as usize) {
                                        let qi = choose|i: int|
                                            0 <= i < qpre.len() && (#[trigger] qpre[i]) == v as usize;
                                        assert(queue@[qi] == qpre[qi]);
                                    }
                                }
                            }
                            assert forall|v: int|
                                #![trigger parent_node@[v]]
                                #![trigger parent_edge@[v]]
                                depth.dom().contains(v) && v != si as int implies {
                                    let pe = parent_edge@[v] as int;
                                    let pu = parent_node@[v] as int;
                                    &&& 0 <= pe < g.edges.len()
                                    &&& edge_passes(g, pe, filt)
                                    &&& g.ends[pe].1 as int == v
                                    &&& g.ends[pe].0 as int == pu
                                    &&& depth.dom().contains(pu)
                                    &&& depth[pu] + 1 == depth[v]
                                } by {
                                if v == tgt as int {
                                    assert(parent_edge@[v] == e);
                                    assert(parent_node@[v] == cur);
                                } else {
                                    assert(depth0.dom().contains(v));
                                }
                            }
                        }
                    } else {
                        proof {
                            assert(depth.dom().contains(tgt as int));
                            if processed.contains(tgt as int) {
                                assert(depth[tgt as int] <= d);
                            } else if tgt as int == cur as int {
                                assert(depth[tgt as int] == d);
                            } else if queue@.contains(tgt as usize) {
                                let qi = choose|i: int|
                                    0 <= i < queue@.len() && (#[trigger] queue@[i]) == tgt;
                                assert(depth[tgt as int] <= d + 1);
                            }
                        }
                    }
                }
                kk += 1;
            }
            proof {
                let ghost processed0 = processed;
                processed = processed.insert(cur as int);
                lemma_len_subset(processed, set_int_range(0, n as int));
                assert forall|u: int, e: int|
                    #![trigger processed.contains(u), g.ends[e]]
                    processed.contains(u) && edge_passes(g, e, filt) && g.ends[e].0 as int
                        == u implies depth.dom().contains(g.ends[e].1 as int) && depth[g.ends[
                        e
                    ].1 as int] <= depth[u] + 1 by {
                    if u == cur as int && !processed0.contains(u) {
                        assert(edge_wf(g, e));
                        assert(g.out[cur as int].contains(e as usize));
                        let x = choose|x: int|
                            0 <= x < g.out[cur as int].len() && g.out[cur as int][x] == e as usize;
                        assert((#[trigger] g.out[cur as int][x]) as int == e);
                    }
                }
                assert forall|v: int| #[trigger] depth.dom().contains(v) implies processed.contains(
                    v,
                ) || queue@.contains(v as usize) by {}
            }
        }
        proof {
            assert forall|v: int| #[trigger] depth.dom().contains(v) implies processed.contains(
                v,
            ) by {
                assert(!queue@.contains(v as usize));
            }
            if reachable(g, si as int, ti as int, filt) {
                let p2 = choose|p2: Seq<usize>| is_path(g, p2, si as int, ti as int, filt);
                assert(bfs_closed(g, filt, depth, processed, p2.len() as int + 1));
                lemma_bfs_cover(
                    g,
                    filt,
                    depth,
                    processed,
                    p2.len() as int + 1,
                    si as int,
                    p2,
                    ti as int,
                );
                assert(processed.contains(ti as int));
                assert(false);
            }
        }
        GraphQueryResult { nodes: Vec::new(), edges: Vec::new(), paths: Vec::new() }
    }
}


/// Places a node record into an id-sorted sequence, before the first
/// record whose id is not smaller.
pub open spec fn insert_by_id(n: NodeView, s: Seq<NodeView>) -> Seq<NodeView>
    decreases s.len(),
{
    if s.len() == 0 {
        seq![n]
    } else if str_le(n.id, s[0].id) {
        seq![n] + s
    } else {
        seq![s[0]] + insert_by_id(n, s.drop_first())
    }
}

/// The node records rearranged into ascending id order: the canonical
/// order of the text export, independent of insertion order.
pub open spec fn sort_by_id(s: Seq<NodeView>) -> Seq<NodeView>
    decreases s.len(),
{
    if s.len() == 0 {
        Seq::empty()
    } else {
        insert_by_id(s[0], sort_by_id(s.drop_first()))
    }
}

/// Inserting lands exactly after the records with smaller ids.
proof fn lemma_insert_by_id_at(n: NodeView, s: Seq<NodeView>, k: int)
    requires
        0 <= k <= s.len(),
        forall|j: int| 0 <= j < k ==> str_lt((#[trigger] s[j]).id, n.id),
        k == s.len() || str_le(n.id, s[k as int].id),
    ensures
        insert_by_id(n, s) == s.take(k) + seq![n] + s.skip(k),
    decreases k,
{
    if k == 0 {
        if s.len() == 0 {
            assert(insert_by_id(n, s) =~= s.take(0) + seq![n] + s.skip(0));
        } else {
            assert(str_le(n.id, s[0].id));
            assert(seq![n] + s =~= s.take(0) + seq![n] + s.skip(0));
        }
    } else {
        assert(str_lt(s[0].id, n.id));
        lemma_str_lt_connected(s[0].id, n.id);
        assert(!str_le(n.id, s[0].id));
        let rest = s.drop_first();
        assert forall|j: int| 0 <= j < k - 1 implies str_lt((#[trigger] rest[j]).id, n.id) by {
            assert(rest[j] == s[j + 1]);
        }
        if k < s.len() {
            assert(rest[k - 1] == s[k as int]);
        }
        lemma_insert_by_id_at(n, rest, k - 1);
        assert(seq![s[0]] + (rest.take(k - 1) + seq![n] + rest.skip(k - 1)) =~= s.take(k) + seq![n]
            + s.skip(k));
    }
}

/// Inserts a node record at its id-sorted position.
fn insert_node_sorted(r: &mut Vec<GraphNode>, node: GraphNode)
    ensures
        node_views(final(r)@) == insert_by_id(node@, node_views(old(r)@)),
{
    let ghost s = node_views(r@);
    let ghost nv = node@;
    let n = r.len();
    let mut k: usize = 0;
    let mut advance = true;
    while k < n && advance
        invariant
            n == r@.len(),
            s == node_views(r@),
            nv == node@,
            k <= n,
            forall|j: int| 0 <= j < k ==> str_lt((#[trigger] s[j]).id, nv.id),
            !advance ==> k < n && str_le(nv.id, s[k as int].id),
        decreases n - k, (if advance {
            1int
        } else {
            0int
        }),
    {
        assert(s[k as int] == r@[k as int]@);
        if str_less(r[k].id.as_str(), node.id.as_str()) {
            k += 1;
        } else {
            proof {
                lemma_str_lt_connected(s[k as int].id, nv.id);
            }
            advance = false;
        }
    }
    let ghost pre = r@;
    r.insert(k, node);
    proof {
        lemma_insert_by_id_at(nv, s, k as int);
        assert(r@ =~= pre.insert(k as int, node));
        assert forall|j: int| 0 <= j < r@.len() implies node_views(r@)[j] == (s.take(k as int)
            + seq![nv] + s.skip(k as int))[j] by {
            assert(node_views(r@)[j] == r@[j]@);
            if j < k {
                assert(r@[j] == pre[j]);
                assert(s[j] == pre[j]@);
            } else if j == k {
                assert(r@[j] == node);
            } else {
                assert(r@[j] == pre[j - 1]);
                assert(s[j - 1] == pre[j - 1]@);
            }
        }
        assert(node_views(r@) =~= s.take(k as int) + seq![nv] + s.skip(k as int));
    }
}

/// The node records cloned and arranged in ascending id order.
fn nodes_sorted_by_id(v: &Vec<GraphNode>) -> (r: Vec<GraphNode>)
    ensures
        node_views(r@) == sort_by_id(node_views(v@)),
{
    let ghost all = node_views(v@);
    let n = v.len();
    let mut r: Vec<GraphNode> = Vec::new();
    proof {
        assert(all.skip(n as int) =~= Seq::<NodeView>::empty());
        assert(node_views(r@) =~= sort_by_id(all.skip(n as int)));
    }
    let mut i: usize = n;
    while i > 0
        invariant
            n == v@.len(),
            all == node_views(v@),
            i <= n,
            node_views(r@) == sort_by_id(all.skip(i as int)),
        decreases i,
    {
        i -= 1;
        let node = duplicate_node(&v[i]);
        proof {
            assert(node@ == v@[i as int]@);
            assert(all[i as int] == v@[i as int]@);
        }
        insert_node_sorted(&mut r, node);
        proof {
            assert(all.skip(i as int)[0] == all[i as int]);
            assert(all.skip(i as int).drop_first() =~= all.skip(i as int + 1));
            assert(node_views(r@) =~= sort_by_id(all.skip(i as int)));
        }
    }
    proof {
        assert(all.skip(0) =~= all);
    }
    r
}

/// The `key: 'value'` clause texts of a property list, quotes escaped.
pub open spec fn props_clauses(ps: Seq<(Seq<char>, Seq<char>)>) -> Seq<Seq<char>> {
    ps.map_values(|p: (Seq<char>, Seq<char>)| p.0 + ": '"@ + escape_quotes(p.1) + "'"@)
}

/// The parts joined by the separator, with nothing around them.
pub open spec fn join_with(parts: Seq<Seq<char>>, sep: Seq<char>) -> Seq<char>
    decreases parts.len(),
{
    if parts.len() == 0 {
        Seq::empty()
    } else if parts.len() == 1 {
        parts[0]
    } else {
        parts[0] + sep + join_with(parts.drop_first(), sep)
    }
}

/// The brace block of a property list; empty lists render as nothing.
pub open spec fn props_block(ps: Seq<(Seq<char>, Seq<char>)>) -> Seq<char> {
    if ps.len() == 0 {
        Seq::empty()
    } else {
        " {"@ + join_with(props_clauses(ps), ", "@) + "}"@
    }
}

/// The creation statement of one node.
pub open spec fn node_stmt(n: NodeView) -> Seq<char> {
    "CREATE ("@ + n.id + ":"@ + n.label + props_block(n.props) + ")"@
}

/// The creation statement of one edge.
pub open spec fn edge_stmt(e: EdgeView) -> Seq<char> {
    "MATCH (a), (b) WHERE a.id = '"@ + e.from + "' AND b.id = '"@ + e.to + "' CREATE (a)-[:"@
        + e.relationship + props_block(e.props) + "]->(b)"@
}

/// The canonical text of the whole graph: one statement per node in
/// ascending id order, then one per edge in ascending numeric edge id
/// (which is their insertion order), separated by `;` and a newline, with
/// a final `;`. The text depends only on the logical graph, not on the
/// order in which nodes were inserted.
pub open spec fn cypher_text(g: GraphView) -> Seq<char> {
    join_with(
        sort_by_id(g.nodes).map_values(|n: NodeView| node_stmt(n)) + g.edges.map_values(
            |e: EdgeView| edge_stmt(e),
        ),
        ";\n"@,
    ) + ";"@
}

/// Joining after appending one more part appends a separator and the part.
pub(crate) proof fn lemma_join_push(parts: Seq<Seq<char>>, x: Seq<char>, sep: Seq<char>)
    ensures
        join_with(parts.push(x), sep) == if parts.len() == 0 {
            x
        } else {
            join_with(parts, sep) + sep + x
        },
    decreases parts.len(),
{
    let q = parts.push(x);
    if parts.len() == 0 {
        assert(q.len() == 1);
        assert(q[0] == x);
    } else {
        assert(q[0] == parts[0]);
        assert(q.drop_first() =~= parts.drop_first().push(x));
        lemma_join_push(parts.drop_first(), x, sep);
        if parts.len() == 1 {
            assert(parts.drop_first().len() == 0);
            assert(join_with(q, sep) == q[0] + sep + join_with(q.drop_first(), sep));
            assert(join_with(q.drop_first(), sep) == x);
            assert(join_with(parts, sep) == parts[0]);
        } else {
            assert(join_with(q, sep) == parts[0] + sep + (join_with(parts.drop_first(), sep) + sep
                + x));
            assert(join_with(parts, sep) == parts[0] + sep + join_with(parts.drop_first(), sep));
            assert(parts[0] + sep + (join_with(parts.drop_first(), sep) + sep + x) =~= (parts[0]
                + sep + join_with(parts.drop_first(), sep)) + sep + x);
        }
    }
}

/// Appends the brace block of `props` to `out`.
fn append_props_block(out: &mut String, props: &PropMap)
    ensures
        final(out)@ == old(out)@ + props_block(props@),
{
    let ghost base = out@;
    let n = props.len();
    if n == 0 {
        assert(out@ =~= base + props_block(props@));
        return ;
    }
    out.append(" {");
    let ghost clauses = props_clauses(props@);
    let mut i: usize = 0;
    while i < n
        invariant
            n == props@.len(),
            n > 0,
            i <= n,
            clauses == props_clauses(props@),
            out@ == base + " {"@ + join_with(clauses.take(i as int), ", "@),
        decreases n - i,
    {
        if i > 0 {
            out.append(", ");
        }
        let ghost mid = out@;
        out.append(props.key_at(i).as_str());
        out.append(": '");
        append_escaped(out, props.value_at(i).as_str());
        out.append("'");
        proof {
            assert(clauses[i as int] == props@[i as int].0 + ": '"@ + escape_quotes(
                props@[i as int].1,
            ) + "'"@);
            assert(out@ =~= mid + clauses[i as int]);
            assert(clauses.take(i as int + 1) =~= clauses.take(i as int).push(clauses[i as int]));
            lemma_join_push(clauses.take(i as int), clauses[i as int], ", "@);
            if i == 0 {
                assert(clauses.take(0).len() == 0);
                assert(out@ =~= base + " {"@ + join_with(clauses.take(1), ", "@));
            } else {
                assert(out@ =~= base + " {"@ + join_with(clauses.take(i as int + 1), ", "@));
            }
        }
        i += 1;
    }
    out.append("}");
    proof {
        assert(clauses.take(n as int) =~= clauses);
        assert(out@ =~= base + props_block(props@));
    }
}

/// Appends the creation statement of one node to `out`.
fn append_node_stmt(out: &mut String, n: &GraphNode)
    ensures
        final(out)@ == old(out)@ + node_stmt(n@),
{
    let ghost base = out@;
    out.append("CREATE (");
    out.append(n.id.as_str());
    out.append(":");
    out.append(n.label.as_str());
    append_props_block(out, &n.properties);
    out.append(")");
    assert(out@ =~= base + node_stmt(n@));
}

/// Appends the creation statement of one edge to `out`.
fn append_edge_stmt(out: &mut String, e: &GraphEdge)
    ensures
        final(out)@ == old(out)@ + edge_stmt(e@),
{
    let ghost base = out@;
    out.append("MATCH (a), (b) WHERE a.id = '");
    out.append(e.from.as_str());
    out.append("' AND b.id = '");
    out.append(e.to.as_str());
    out.append("' CREATE (a)-[:");
    out.append(e.relationship.as_str());
    append_props_block(out, &e.properties);
    out.append("]->(b)");
    assert(out@ =~= base + edge_stmt(e@));
}

impl GraphDatabase {
    /// The deterministic canonical text export: one creation statement per
    /// node in ascending id order, then one per edge in ascending numeric
    /// edge id.
    pub fn export_cypher(&self) -> (r: String)
        requires
            self.wf(),
        ensures
            r@ == cypher_text(self@),
    {
        let ghost g = self@;
        let ghost nstmts = sort_by_id(g.nodes).map_values(|n: NodeView| node_stmt(n));
        let ghost estmts = g.edges.map_values(|e: EdgeView| edge_stmt(e));
        let snodes = nodes_sorted_by_id(&self.nodes);
        let mut out = String::new();
        let node_count = snodes.len();
        let edge_count = self.edges.len();
        assert(node_views(snodes@).len() == sort_by_id(g.nodes).len());
        let mut i: usize = 0;
        proof {
            assert(out@ =~= join_with(nstmts.take(0), ";\n"@));
        }
        while i < node_count
            invariant
                g == self@,
                node_count == snodes@.len(),
                node_views(snodes@) == sort_by_id(g.nodes),
                i <= node_count,
                nstmts == sort_by_id(g.nodes).map_values(|n: NodeView| node_stmt(n)),
                out@ == join_with(nstmts.take(i as int), ";\n"@),
            decreases node_count - i,
        {
            if i > 0 {
                out.append(";\n");
            }
            let ghost mid = out@;
            append_node_stmt(&mut out, &snodes[i]);
            proof {
                assert(snodes@[i as int]@ == node_views(snodes@)[i as int]);
                assert(snodes@[i as int]@ == sort_by_id(g.nodes)[i as int]);
                assert(nstmts[i as int] == node_stmt(sort_by_id(g.nodes)[i as int]));
                assert(nstmts.take(i as int + 1) =~= nstmts.take(i as int).push(nstmts[i as int]));
                lemma_join_push(nstmts.take(i as int), nstmts[i as int], ";\n"@);
                if i == 0 {
                    assert(out@ =~= join_with(nstmts.take(1), ";\n"@));
                } else {
                    assert(out@ =~= join_with(nstmts.take(i as int + 1), ";\n"@));
                }
            }
            i += 1;
        }
        proof {
            assert(nstmts.take(node_count as int) =~= nstmts);
        }
        let mut j: usize = 0;
        while j < edge_count
            invariant
                g == self@,
                node_count == sort_by_id(g.nodes).len(),
                edge_count == g.edges.len(),
                edge_count == self.edges@.len(),
                j <= edge_count,
                nstmts == sort_by_id(g.nodes).map_values(|n: NodeView| node_stmt(n)),
                estmts == g.edges.map_values(|e: EdgeView| edge_stmt(e)),
                out@ == join_with(nstmts + estmts.take(j as int), ";\n"@),
            decreases edge_count - j,
        {
            if node_count > 0 || j > 0 {
                out.append(";\n");
            }
            let ghost mid = out@;
            append_edge_stmt(&mut out, &self.edges[j]);
            proof {
                assert(self.edges@[j as int]@ == g.edges[j as int]);
                assert(estmts[j as int] == edge_stmt(g.edges[j as int]));
                let parts = nstmts + estmts.take(j as int);
                assert(nstmts + estmts.take(j as int + 1) =~= parts.push(estmts[j as int]));
                lemma_join_push(parts, estmts[j as int], ";\n"@);
                if node_count == 0 && j == 0 {
                    assert(parts.len() == 0);
                    assert(out@ =~= join_with(nstmts + estmts.take(1), ";\n"@));
                } else {
                    assert(parts.len() > 0);
                    assert(out@ =~= join_with(nstmts + estmts.take(j as int + 1), ";\n"@));
                }
            }
            j += 1;
        }
        out.append(";");
        proof {
            assert(estmts.take(edge_count as int) =~= estmts);
            assert(out@ =~= cypher_text(g));
        }
        out
    }
}

} // verus!
