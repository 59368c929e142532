//! The weighted co-occurrence graph and its centrality ranking.
//!
//! A graph is a list of nodes, each holding the identifier of the node and
//! the list of edges incident to it, in insertion order.  Inserting an edge
//! appends it under both endpoints, so a self-loop appears twice in the same
//! list and its weight is counted twice in that node's out-sum.

use crate::fixed::{sat, tdiv, sat_add, sat_mul, sat_sub, tdiv_i128, SCALE, DAMPING_DEN,
    DEFAULT_DAMPING};
use crate::order::{sorted_lex, sort_ids, views, sort_strings, lemma_sort_ids_sorted,
    lemma_sort_ids_permutes};
use vstd::prelude::*;

verus! {

/// One weighted, undirected connection between two node identifiers.
#[derive(Hash, Eq, PartialEq, Debug, Clone)]
pub struct Entry {
    pub start: String,
    pub end: String,
    pub weight: i32,
}

/// The mathematical value of an [`Entry`]: both identifiers as character
/// sequences and the weight as an unbounded integer.
pub struct EdgeView {
    pub start: Seq<char>,
    pub end: Seq<char>,
    pub weight: int,
}

impl View for Entry {
    type V = EdgeView;

    open spec fn view(&self) -> EdgeView {
        EdgeView { start: self.start@, end: self.end@, weight: self.weight as int }
    }
}

impl Entry {
    /// Copies both identifiers and the weight into a fresh edge value.
    pub fn new(start: &str, end: &str, weight: i32) -> (e: Entry)
        ensures
            e@.start == start@,
            e@.end == end@,
            e@.weight == weight as int,
    {
        Entry { start: start.to_owned(), end: end.to_owned(), weight: weight }
    }

    /// A copy whose value is exactly that of `self`.
    fn duplicate(&self) -> (e: Entry)
        ensures
            e@ == self@,
    {
        Entry { start: self.start.clone(), end: self.end.clone(), weight: self.weight }
    }
}

/// One node of the graph: its identifier and the edges incident to it,
/// in insertion order.
#[derive(Debug)]
pub struct NodeEntry {
    pub id: String,
    pub edges: Vec<Entry>,
}

/// The mathematical value of a graph: per node, its identifier and the
/// values of its incident edges, in insertion order.
pub type GraphView = Seq<(Seq<char>, Seq<EdgeView>)>;

/// The identifiers of all nodes, in insertion order.
pub open spec fn keys_of(gv: GraphView) -> Seq<Seq<char>> {
    gv.map_values(|p: (Seq<char>, Seq<EdgeView>)| p.0)
}

/// Index of the first node carrying `id`, if any.
pub open spec fn find_key(gv: GraphView, id: Seq<char>) -> Option<int>
    decreases gv.len(),
{
    if gv.len() == 0 {
        None
    } else if gv[0].0 == id {
        Some(0int)
    } else {
        match find_key(gv.drop_first(), id) {
            Some(i) => Some(i + 1),
            None => None,
        }
    }
}

/// `id` names a node of the graph.
pub open spec fn has_key(gv: GraphView, id: Seq<char>) -> bool {
    find_key(gv, id) is Some
}

/// The edge list stored under `id`; empty when `id` names no node.
pub open spec fn edges_of(gv: GraphView, id: Seq<char>) -> Seq<EdgeView> {
    match find_key(gv, id) {
        Some(i) => gv[i].1,
        None => Seq::empty(),
    }
}

/// What `find_key` returns: the first index whose identifier is `id`.
pub proof fn lemma_find_key_props(gv: GraphView, id: Seq<char>)
    ensures
        match find_key(gv, id) {
            Some(i) => 0 <= i < gv.len() && gv[i].0 == id && forall|j: int|
                0 <= j < i ==> (#[trigger] gv[j].0) != id,
            None => forall|j: int| 0 <= j < gv.len() ==> (#[trigger] gv[j].0) != id,
        },
    decreases gv.len(),
{
    if gv.len() == 0 {
    } else if gv[0].0 == id {
    } else {
        lemma_find_key_props(gv.drop_first(), id);
        assert(forall|j: int| 1 <= j < gv.len() ==> gv[j] == gv.drop_first()[j - 1]);
    }
}

/// The edge `e` appended to the list stored under `id`; a node for `id` is
/// created at the back when none exists yet.
pub open spec fn attach(gv: GraphView, id: Seq<char>, e: EdgeView) -> GraphView {
    match find_key(gv, id) {
        Some(i) => gv.update(i, (gv[i].0, gv[i].1.push(e))),
        None => gv.push((id, seq![e])),
    }
}

/// Attaching never removes a key, adds `id` as a key, and leaves every
/// identifier in place.
pub proof fn lemma_attach_keys(gv: GraphView, id: Seq<char>, e: EdgeView)
    ensures
        has_key(gv, id) ==> keys_of(attach(gv, id, e)) =~= keys_of(gv),
        !has_key(gv, id) ==> keys_of(attach(gv, id, e)) =~= keys_of(gv).push(id),
        forall|j: int| 0 <= j < gv.len() ==> (#[trigger] attach(gv, id, e)[j].0) == gv[j].0,
{
    lemma_find_key_props(gv, id);
}

/// Which keys a graph has after an attach.
pub proof fn lemma_attach_has_key(gv: GraphView, id: Seq<char>, e: EdgeView, id2: Seq<char>)
    ensures
        has_key(attach(gv, id, e), id2) == (has_key(gv, id2) || id2 == id),
{
    let gv2 = attach(gv, id, e);
    lemma_attach_keys(gv, id, e);
    lemma_find_key_props(gv, id);
    lemma_find_key_props(gv, id2);
    lemma_find_key_props(gv2, id2);
    lemma_has_key_is_contains(gv, id2);
    lemma_has_key_is_contains(gv2, id2);
    if has_key(gv, id) {
        assert(keys_of(gv2) =~= keys_of(gv));
        assert(keys_of(gv)[find_key(gv, id).unwrap()] == id);
        assert(keys_of(gv).contains(id));
    } else {
        let ks = keys_of(gv);
        assert(keys_of(gv2) =~= ks.push(id));
        assert(ks.push(id)[ks.len() as int] == id);
        assert(ks.push(id).contains(id));
        if id2 != id {
            if ks.push(id).contains(id2) {
                let k = choose|k: int| 0 <= k < ks.push(id).len() && ks.push(id)[k] == id2;
                assert(k < ks.len());
                assert(ks[k] == id2);
                assert(ks.contains(id2));
            }
            if ks.contains(id2) {
                let k = choose|k: int| 0 <= k < ks.len() && ks[k] == id2;
                assert(ks.push(id)[k] == id2);
                assert(ks.push(id).contains(id2));
            }
        }
    }
}

/// A graph has a key exactly when some node carries it.
pub proof fn lemma_has_key_is_contains(gv: GraphView, id: Seq<char>)
    ensures
        has_key(gv, id) == keys_of(gv).contains(id),
{
    lemma_find_key_props(gv, id);
    if has_key(gv, id) {
        let i = find_key(gv, id).unwrap();
        assert(keys_of(gv)[i] == id);
    } else {
        if keys_of(gv).contains(id) {
            let k = choose|k: int| 0 <= k < keys_of(gv).len() && keys_of(gv)[k] == id;
            assert(gv[k].0 == id);
        }
    }
}

/// The edge list under `id` after an attach under `id`: the old list with
/// `e` appended.
pub proof fn lemma_attach_edges_same(gv: GraphView, id: Seq<char>, e: EdgeView)
    ensures
        edges_of(attach(gv, id, e), id) =~= edges_of(gv, id).push(e),
{
    lemma_find_key_props(gv, id);
    let gv2 = attach(gv, id, e);
    lemma_attach_keys(gv, id, e);
    lemma_find_key_props(gv2, id);
    match find_key(gv, id) {
        Some(i) => {
            assert(gv2[i].0 == id);
            let i2 = find_key(gv2, id).unwrap();
            assert(gv2[i2].0 == id);
            assert(forall|j: int| 0 <= j < i ==> (#[trigger] gv2[j].0) == gv[j].0);
            assert(i2 == i);
        },
        None => {
            assert(gv2 == gv.push((id, seq![e])));
            assert(gv2[gv.len() as int] == (id, seq![e]));
            assert(gv2[gv.len() as int].0 == id);
            let i2 = find_key(gv2, id).unwrap();
            assert(forall|j: int| 0 <= j < gv.len() ==> (#[trigger] gv2[j].0) == gv[j].0);
            assert(i2 == gv.len());
            assert(edges_of(gv, id) =~= Seq::<EdgeView>::empty());
            assert(gv2[i2].1 =~= seq![e]);
        },
    }
}

/// The edge list under any other key is untouched by an attach.
pub proof fn lemma_attach_edges_other(gv: GraphView, id: Seq<char>, e: EdgeView, id2: Seq<char>)
    requires
        id2 != id,
    ensures
        edges_of(attach(gv, id, e), id2) =~= edges_of(gv, id2),
{
    lemma_find_key_props(gv, id);
    let gv2 = attach(gv, id, e);
    lemma_attach_keys(gv, id, e);
    lemma_find_key_props(gv2, id2);
    lemma_find_key_props(gv, id2);
    match find_key(gv2, id2) {
        Some(i2) => {
            assert(gv2[i2].0 == id2);
            if i2 >= gv.len() {
                assert(!has_key(gv, id));
                assert(gv2[i2].0 == id);
                assert(false);
            }
            assert(gv2[i2].0 == gv[i2].0);
            assert(gv[i2].0 == id2);
            match find_key(gv, id2) {
                Some(i) => {
                    assert(gv[i].0 == id2);
                    if i < i2 {
                        assert(gv2[i].0 == gv[i].0);
                        assert(false);
                    }
                    if i2 < i {
                        assert(false);
                    }
                    match find_key(gv, id) {
                        Some(n) => {
                            assert(gv[n].0 == id);
                            assert(n != i);
                            assert(gv2[i].1 == gv[i].1);
                        },
                        None => {
                            assert(gv2[i].1 == gv[i].1);
                        },
                    }
                },
                None => {
                    assert(false);
                },
            }
        },
        None => {
            match find_key(gv, id2) {
                Some(i) => {
                    assert(gv2[i].0 == gv[i].0);
                    assert(false);
                },
                None => {
                },
            }
        },
    }
}

/// The integer values of a fixed-point score vector.
pub open spec fn ints(s: Seq<i128>) -> Seq<int> {
    s.map_values(|x: i128| x as int)
}

/// Fixed-point score every node starts a ranking with: one unit divided by
/// the node count, guarded against an empty graph.
pub open spec fn init_score(n: int) -> int {
    tdiv(SCALE as int, vstd::math::max(1, n))
}

/// Total incident weight of a node: the weights of its adjacency list,
/// accumulated with saturation.  A self-loop appears twice in the list and
/// is therefore counted twice.
pub open spec fn weight_sum(es: Seq<EdgeView>) -> int
    decreases es.len(),
{
    if es.len() == 0 {
        0
    } else {
        sat(weight_sum(es.drop_last()) + es.last().weight)
    }
}

/// The out-sum of every node, aligned with the ordered key sequence.
pub open spec fn out_sums(gv: GraphView, ks: Seq<Seq<char>>) -> Seq<int> {
    Seq::new(ks.len(), |j: int| weight_sum(edges_of(gv, ks[j])))
}

/// Index of the first occurrence of `id` in the key sequence, if any.
pub open spec fn find_id(ks: Seq<Seq<char>>, id: Seq<char>) -> Option<int>
    decreases ks.len(),
{
    if ks.len() == 0 {
        None
    } else if ks[0] == id {
        Some(0int)
    } else {
        match find_id(ks.drop_first(), id) {
            Some(i) => Some(i + 1),
            None => None,
        }
    }
}

/// What `find_id` returns: the first index holding `id`.
pub proof fn lemma_find_id_props(ks: Seq<Seq<char>>, id: Seq<char>)
    ensures
        match find_id(ks, id) {
            Some(i) => 0 <= i < ks.len() && ks[i] == id && forall|j: int|
                0 <= j < i ==> (#[trigger] ks[j]) != id,
            None => forall|j: int| 0 <= j < ks.len() ==> (#[trigger] ks[j]) != id,
        },
    decreases ks.len(),
{
    if ks.len() == 0 {
    } else if ks[0] == id {
    } else {
        lemma_find_id_props(ks.drop_first(), id);
        assert(forall|j: int| 1 <= j < ks.len() ==> ks[j] == ks.drop_first()[j - 1]);
    }
}

/// The uniform baseline term of the score update, `(1 - d)` in fixed point.
pub open spec fn base_term(d: int) -> int {
    tdiv(sat(SCALE as int * (DAMPING_DEN as int - d)), DAMPING_DEN as int)
}

/// One edge's neighbor contribution.  The neighbor is always read through
/// the edge's `end` field, exactly as the edge is stored, regardless of
/// which adjacency list it was found in.
pub open spec fn contribution(
    ks: Seq<Seq<char>>,
    outs: Seq<int>,
    scores: Seq<int>,
    e: EdgeView,
) -> int {
    match find_id(ks, e.end) {
        Some(j) => tdiv(sat(e.weight * scores[j]), outs[j]),
        None => 0,
    }
}

/// One edge processed for the node at position `n`: the accumulator grows
/// by the edge's contribution and the node's score is rewritten at once,
/// so the write happens once per edge, not once per node.
pub open spec fn edge_step(
    ks: Seq<Seq<char>>,
    outs: Seq<int>,
    d: int,
    n: int,
    st: (Seq<int>, int),
    e: EdgeView,
) -> (Seq<int>, int) {
    let s2 = sat(st.1 + contribution(ks, outs, st.0, e));
    let w2 = sat(base_term(d) + tdiv(sat(d * s2), DAMPING_DEN as int));
    (st.0.update(n, w2), s2)
}

/// All edges of one node processed in storage order, starting from a zero
/// accumulator state `st`.
pub open spec fn node_fold(
    ks: Seq<Seq<char>>,
    outs: Seq<int>,
    d: int,
    n: int,
    es: Seq<EdgeView>,
    st: (Seq<int>, int),
) -> (Seq<int>, int)
    decreases es.len(),
{
    if es.len() == 0 {
        st
    } else {
        edge_step(ks, outs, d, n, node_fold(ks, outs, d, n, es.drop_last(), st), es.last())
    }
}

/// One ranking pass over the first `m` nodes in key order; scores updated
/// by earlier nodes are visible to later ones within the same pass.
pub open spec fn pass_upto(
    gv: GraphView,
    ks: Seq<Seq<char>>,
    outs: Seq<int>,
    d: int,
    m: int,
    scores: Seq<int>,
) -> Seq<int>
    decreases m,
{
    if m <= 0 {
        scores
    } else {
        node_fold(
            ks,
            outs,
            d,
            m - 1,
            edges_of(gv, ks[m - 1]),
            (pass_upto(gv, ks, outs, d, m - 1, scores), 0),
        ).0
    }
}

/// `k` full ranking passes.
pub open spec fn iterate(
    gv: GraphView,
    ks: Seq<Seq<char>>,
    outs: Seq<int>,
    d: int,
    k: nat,
    scores: Seq<int>,
) -> Seq<int>
    decreases k,
{
    if k == 0 {
        scores
    } else {
        pass_upto(gv, ks, outs, d, ks.len() as int, iterate(gv, ks, outs, d, (k - 1) as nat, scores))
    }
}

/// Smallest value of a non-empty score sequence.
pub open spec fn seq_min(s: Seq<int>) -> int
    decreases s.len(),
{
    if s.len() <= 1 {
        s[0]
    } else {
        vstd::math::min(seq_min(s.drop_last()), s.last())
    }
}

/// Largest value of a non-empty score sequence.
pub open spec fn seq_max(s: Seq<int>) -> int
    decreases s.len(),
{
    if s.len() <= 1 {
        s[0]
    } else {
        vstd::math::max(seq_max(s.drop_last()), s.last())
    }
}

/// The final rescaling of one score: only the subtrahend's minimum is
/// divided by ten, so this is not a plain min-max rescale to `[0, 1]`.
pub open spec fn normalize(v: int, mn: int, mx: int) -> int {
    tdiv(sat(sat(v - tdiv(mn, 10)) * SCALE as int), sat(mx - tdiv(mn, 10)))
}

/// Number of ranking passes: a fixed count, not a convergence test.
pub const PASSES: u32 = 10;

/// The ranking of a graph value: the fixed-point score of each node,
/// aligned with the lexicographically sorted key sequence.
pub open spec fn rank_model(gv: GraphView, d: int) -> Seq<int> {
    let ks = sort_ids(keys_of(gv));
    let outs = out_sums(gv, ks);
    let first = Seq::new(ks.len(), |j: int| init_score(ks.len() as int));
    let fin = iterate(gv, ks, outs, d, PASSES as nat, first);
    Seq::new(ks.len(), |j: int| normalize(fin[j], seq_min(fin), seq_max(fin)))
}

/// How a ranking result corresponds to the graph it was computed from:
/// one pair per node, in lexicographic key order, each score being the
/// one the model assigns.
pub open spec fn rank_matches(g: UndirectWeightedGraph, r: Seq<(Seq<char>, int)>) -> bool {
    let ks = sort_ids(keys_of(g@));
    let scores = rank_model(g@, g.d as int);
    &&& r.len() == ks.len()
    &&& forall|j: int| 0 <= j < r.len() ==> (#[trigger] r[j]).0 == ks[j] && r[j].1 == scores[j]
}

/// Index of `id` in the key vector, if any.
fn find_pos(v: &Vec<String>, id: &String) -> (r: Option<usize>)
    ensures
        match r {
            Some(i) => find_id(views(v@), id@) == Some(i as int) && i < v@.len(),
            None => find_id(views(v@), id@) is None,
        },
{
    let mut i: usize = 0;
    let n = v.len();
    proof {
        lemma_find_id_props(views(v@), id@);
    }
    while i < n
        invariant
            i <= n,
            n == v@.len(),
            forall|j: int| 0 <= j < i ==> (#[trigger] views(v@)[j]) != id@,
            match find_id(views(v@), id@) {
                Some(k) => 0 <= k < views(v@).len() && views(v@)[k] == id@ && forall|j: int|
                    0 <= j < k ==> (#[trigger] views(v@)[j]) != id@,
                None => forall|j: int|
                    0 <= j < views(v@).len() ==> (#[trigger] views(v@)[j]) != id@,
            },
        decreases n - i,
    {
        if v[i].eq(id) {
            proof {
                assert(views(v@)[i as int] == id@);
            }
            return Some(i);
        }
        proof {
            assert(views(v@)[i as int] == v@[i as int]@);
        }
        i = i + 1;
    }
    None
}

/// The undirected, weighted graph: a damping numerator (a fraction of
/// [`DAMPING_DEN`]) and the adjacency lists.
#[derive(Debug)]
pub struct UndirectWeightedGraph {
    pub d: u32,
    pub graph: Vec<NodeEntry>,
}

impl View for UndirectWeightedGraph {
    type V = GraphView;

    open spec fn view(&self) -> GraphView {
        self.graph@.map_values(
            |n: NodeEntry| (n.id@, n.edges@.map_values(|e: Entry| e@)),
        )
    }
}

/// Node identifiers are pairwise distinct and both endpoints of every
/// stored edge are themselves keys of the graph.
pub open spec fn wf_view(gv: GraphView) -> bool {
    &&& (forall|i: int, j: int|
        0 <= i < j < gv.len() ==> (#[trigger] gv[i].0) != (#[trigger] gv[j].0))
    &&& (forall|i: int, k: int|
        0 <= i < gv.len() && 0 <= k < gv[i].1.len() ==> has_key(
            gv,
            (#[trigger] gv[i].1[k]).start,
        ) && has_key(gv, gv[i].1[k].end))
}

impl UndirectWeightedGraph {
    /// Node identifiers are pairwise distinct and both endpoints of every
    /// stored edge are themselves keys of the graph.
    pub open spec fn wf(self) -> bool {
        wf_view(self@)
    }

    /// An empty graph with the given damping numerator.
    pub fn new(d: u32) -> (g: UndirectWeightedGraph)
        ensures
            g.d == d,
            g@ =~= Seq::<(Seq<char>, Seq<EdgeView>)>::empty(),
            g.wf(),
    {
        let g = UndirectWeightedGraph { d: d, graph: Vec::new() };
        proof {
            assert(g@ =~= Seq::<(Seq<char>, Seq<EdgeView>)>::empty());
        }
        g
    }

    /// The number of distinct node identifiers.
    pub fn len(&self) -> (r: usize)
        ensures
            r == self@.len(),
            r == keys_of(self@).len(),
    {
        self.graph.len()
    }

    /// Index of the node carrying `id`, if any.
    fn find_index(&self, id: &String) -> (r: Option<usize>)
        ensures
            match r {
                Some(i) => find_key(self@, id@) == Some(i as int),
                None => find_key(self@, id@) is None,
            },
    {
        let mut i: usize = 0;
        let n = self.graph.len();
        proof {
            lemma_find_key_props(self@, id@);
        }
        while i < n
            invariant
                i <= n,
                n == self@.len(),
                forall|j: int| 0 <= j < i ==> (#[trigger] self@[j].0) != id@,
                match find_key(self@, id@) {
                    Some(k) => 0 <= k < self@.len() && self@[k].0 == id@ && forall|j: int|
                        0 <= j < k ==> (#[trigger] self@[j].0) != id@,
                    None => forall|j: int| 0 <= j < self@.len() ==> (#[trigger] self@[j].0) != id@,
                },
            decreases n - i,
        {
            if self.graph[i].id.eq(id) {
                proof {
                    assert(self@[i as int].0 == id@);
                }
                return Some(i);
            }
            proof {
                assert(self@[i as int].0 == self.graph@[i as int].id@);
            }
            i = i + 1;
        }
        None
    }

    /// Appends the edge under one endpoint's identifier, creating the node
    /// when absent.
    fn attach_edge(&mut self, id: &String, entry: Entry)
        ensures
            final(self)@ == attach(old(self)@, id@, entry@),
            final(self).d == old(self).d,
    {
        let idx = self.find_index(id);
        proof {
            lemma_find_key_props(self@, id@);
        }
        match idx {
            Some(i) => {
                let ghost old_nodes = self.graph@;
                let mut node = self.graph.remove(i);
                node.edges.push(entry);
                let ghost node2 = node;
                self.graph.insert(i, node);
                proof {
                    old_nodes.remove_ensures(i as int);
                    old_nodes.remove(i as int).insert_ensures(i as int, node2);
                    assert(self.graph@ =~= old_nodes.update(i as int, node2));
                    assert(self@ =~~= attach(old(self)@, id@, entry@));
                }
            },
            None => {
                let key = id.clone();
                let mut es: Vec<Entry> = Vec::new();
                es.push(entry);
                self.graph.push(NodeEntry { id: key, edges: es });
                proof {
                    assert(self@ =~~= attach(old(self)@, id@, entry@));
                }
            },
        }
    }

    /// Appends the edge to the adjacency lists of both of its endpoints,
    /// creating each endpoint's node when absent, and returns the graph.
    /// A self-loop is appended twice to the same list.
    pub fn add_edge(self, entry: Entry) -> (g: UndirectWeightedGraph)
        ensures
            g.d == self.d,
            g@ == attach(attach(self@, entry@.start, entry@), entry@.end, entry@),
            self.wf() ==> g.wf(),
    {
        let ghost orig = self@;
        let ghost was_wf = self.wf();
        let mut g = self;
        let start = entry.start.clone();
        let end = entry.end.clone();
        let copy = entry.duplicate();
        g.attach_edge(&start, copy);
        g.attach_edge(&end, entry);
        proof {
            if was_wf {
                lemma_attach_wf(orig, entry@);
            }
        }
        g
    }

    /// The adjacency list stored under `id`, if that node exists.
    pub fn get(&self, id: &str) -> (r: Option<&Vec<Entry>>)
        ensures
            match r {
                Some(v) => has_key(self@, id@) && v@.map_values(|e: Entry| e@) == edges_of(
                    self@,
                    id@,
                ),
                None => !has_key(self@, id@),
            },
    {
        let key = id.to_owned();
        let idx = self.find_index(&key);
        match idx {
            Some(i) => {
                proof {
                    lemma_find_key_props(self@, id@);
                    assert(self@[i as int].1 == self.graph@[i as int].edges@.map_values(
                        |e: Entry| e@,
                    ));
                }
                Some(&self.graph[i].edges)
            },
            None => None,
        }
    }

    /// Ten ranking passes over the nodes in lexicographic key order, then
    /// the final rescaling: returns one `(identifier, fixed-point score)`
    /// pair per node, in that same order.  The scores are exactly those of
    /// [`rank_model`]; the graph itself is never changed, so two calls on
    /// the same graph return identical results.
    #[verifier::loop_isolation(false)]
    pub fn rank(&self) -> (r: Vec<(String, i128)>)
        ensures
            rank_matches(*self, r@.map_values(|p: (String, i128)| (p.0@, p.1 as int))),
    {
        let ghost gv = self@;
        let ghost d_i = self.d as int;
        // Collect the node identifiers.
        let mut keys: Vec<String> = Vec::new();
        let mut i: usize = 0;
        while i < self.graph.len()
            invariant
                i <= self.graph@.len(),
                views(keys@) =~~= keys_of(gv).take(i as int),
            decreases self.graph@.len() - i,
        {
            let ghost before = keys@;
            keys.push(self.graph[i].id.clone());
            proof {
                assert(views(keys@) =~~= views(before).push(self.graph@[i as int].id@));
                assert(keys_of(gv)[i as int] == self.graph@[i as int].id@);
                assert(views(keys@) =~~= keys_of(gv).take(i as int + 1));
            }
            i = i + 1;
        }
        proof {
            assert(keys_of(gv).take(self.graph@.len() as int) =~~= keys_of(gv));
        }
        // Sort them lexicographically: this order is load-bearing, since
        // scores are updated in place during a pass.
        let sorted = sort_strings(&keys);
        let ghost ks = sort_ids(keys_of(gv));
        proof {
            assert(views(sorted@) == ks);
        }
        let n = sorted.len();
        proof {
            assert(n == ks.len());
        }
        // Out-sums, aligned with the sorted keys.
        let ghost outs_m = out_sums(gv, ks);
        let mut outs: Vec<i128> = Vec::new();
        let mut j: usize = 0;
        while j < n
            invariant
                j <= n,
                outs@.len() == j,
                forall|t: int| 0 <= t < j ==> (#[trigger] outs@[t]) as int == outs_m[t],
                forall|t: int| 0 <= t < j ==> (#[trigger] outs@[t]) != i128::MIN,
            decreases n - j,
        {
            proof {
                assert(sorted@[j as int]@ == ks[j as int]);
            }
            let idx = self.find_index(&sorted[j]);
            let ghost es = edges_of(gv, ks[j as int]);
            let mut sum: i128 = 0;
            match idx {
                None => {
                    proof {
                        assert(es =~= Seq::<EdgeView>::empty());
                        assert(weight_sum(es) == 0);
                    }
                },
                Some(ei) => {
                    let ghost eidx = ei as int;
                    proof {
                        lemma_find_key_props(gv, ks[j as int]);
                        assert(es == gv[eidx].1);
                        assert(gv[eidx].1 == self.graph@[eidx].edges@.map_values(|e: Entry| e@));
                    }
                    let elen = self.graph[ei].edges.len();
                    let mut k: usize = 0;
                    while k < elen
                        invariant
                            k <= elen,
                            elen == es.len(),
                            sum as int == weight_sum(es.take(k as int)),
                            sum != i128::MIN,
                        decreases elen - k,
                    {
                        let w = self.graph[ei].edges[k].weight;
                        proof {
                            assert(es[k as int] == self.graph@[eidx].edges@[k as int]@);
                            assert(es.take(k as int + 1).drop_last() =~= es.take(k as int));
                            assert(es.take(k as int + 1).last() == es[k as int]);
                        }
                        sum = sat_add(sum, w as i128);
                        k = k + 1;
                    }
                    proof {
                        assert(es.take(es.len() as int) =~= es);
                    }
                },
            }
            outs.push(sum);
            j = j + 1;
        }
        // Initial scores.
        let wsdef: i128 = tdiv_i128(SCALE, if n == 0 { 1 } else { n as i128 });
        proof {
            assert(wsdef as int == init_score(n as int));
        }
        let ghost first = Seq::new(ks.len(), |t: int| init_score(ks.len() as int));
        let mut ws: Vec<i128> = Vec::new();
        let mut j2: usize = 0;
        while j2 < n
            invariant
                j2 <= n,
                ws@.len() == j2,
                forall|t: int| 0 <= t < j2 ==> (#[trigger] ws@[t]) == wsdef,
            decreases n - j2,
        {
            ws.push(wsdef);
            j2 = j2 + 1;
        }
        proof {
            assert(ints(ws@) =~~= first);
        }
        // The damping terms.
        let dden: i128 = DAMPING_DEN as i128;
        let d_e: i128 = self.d as i128;
        let base: i128 = tdiv_i128(sat_mul(SCALE, dden - d_e), dden);
        proof {
            assert(base as int == base_term(d_i));
        }
        // Ten passes, each over all nodes in sorted order.
        let mut pass: usize = 0;
        while pass < 10
            invariant
                pass <= 10,
                ws@.len() == n,
                forall|t: int| 0 <= t < n ==> (#[trigger] ws@[t]) != i128::MIN,
                ints(ws@) == iterate(gv, ks, outs_m, d_i, pass as nat, first),
            decreases 10 - pass,
        {
            let ghost ws_pass = ints(ws@);
            let mut m: usize = 0;
            while m < n
                invariant
                    m <= n,
                    ws@.len() == n,
                    forall|t: int| 0 <= t < n ==> (#[trigger] ws@[t]) != i128::MIN,
                    ints(ws@) == pass_upto(gv, ks, outs_m, d_i, m as int, ws_pass),
                decreases n - m,
            {
                let ghost ws_node = ints(ws@);
                proof {
                    assert(sorted@[m as int]@ == ks[m as int]);
                }
                let idx = self.find_index(&sorted[m]);
                let ghost es = edges_of(gv, ks[m as int]);
                match idx {
                    None => {
                        proof {
                            assert(es =~= Seq::<EdgeView>::empty());
                            assert(node_fold(ks, outs_m, d_i, m as int, es, (ws_node, 0int))
                                == (ws_node, 0int));
                        }
                    },
                    Some(ei) => {
                        let ghost eidx = ei as int;
                        proof {
                            lemma_find_key_props(gv, ks[m as int]);
                            assert(es == gv[eidx].1);
                            assert(gv[eidx].1 == self.graph@[eidx].edges@.map_values(
                                |e: Entry| e@,
                            ));
                        }
                        let elen = self.graph[ei].edges.len();
                        let mut s_acc: i128 = 0;
                        let mut k: usize = 0;
                        while k < elen
                            invariant
                                k <= elen,
                                elen == es.len(),
                                ws@.len() == n,
                                forall|t: int| 0 <= t < n ==> (#[trigger] ws@[t]) != i128::MIN,
                                (ints(ws@), s_acc as int) == node_fold(
                                    ks,
                                    outs_m,
                                    d_i,
                                    m as int,
                                    es.take(k as int),
                                    (ws_node, 0int),
                                ),
                            decreases elen - k,
                        {
                            let ghost st = node_fold(
                                ks,
                                outs_m,
                                d_i,
                                m as int,
                                es.take(k as int),
                                (ws_node, 0int),
                            );
                            proof {
                                assert(es[k as int] == self.graph@[eidx].edges@[k as int]@);
                                assert(es.take(k as int + 1).drop_last() =~= es.take(k as int));
                                assert(es.take(k as int + 1).last() == es[k as int]);
                                lemma_find_id_props(ks, es[k as int].end);
                            }
                            let w = self.graph[ei].edges[k].weight;
                            let jopt = find_pos(&sorted, &self.graph[ei].edges[k].end);
                            let share: i128 = match jopt {
                                Some(jj) => tdiv_i128(sat_mul(w as i128, ws[jj]), outs[jj]),
                                None => 0,
                            };
                            proof {
                                assert(share as int == contribution(
                                    ks,
                                    outs_m,
                                    ints(ws@),
                                    es[k as int],
                                ));
                            }
                            s_acc = sat_add(s_acc, share);
                            let w2 = sat_add(base, tdiv_i128(sat_mul(d_e, s_acc), dden));
                            let ghost ws_before = ints(ws@);
                            ws[m] = w2;
                            proof {
                                assert(ints(ws@) =~~= ws_before.update(m as int, w2 as int));
                                assert((ints(ws@), s_acc as int) == edge_step(
                                    ks,
                                    outs_m,
                                    d_i,
                                    m as int,
                                    st,
                                    es[k as int],
                                ));
                            }
                            k = k + 1;
                        }
                        proof {
                            assert(es.take(es.len() as int) =~= es);
                        }
                    },
                }
                proof {
                    assert(ints(ws@) == pass_upto(gv, ks, outs_m, d_i, m as int + 1, ws_pass));
                }
                m = m + 1;
            }
            proof {
                assert(ints(ws@) == iterate(gv, ks, outs_m, d_i, (pass + 1) as nat, first));
            }
            pass = pass + 1;
        }
        let ghost fin = ints(ws@);
        // The final rescaling.
        let mut r: Vec<(String, i128)> = Vec::new();
        if n == 0 {
            proof {
                assert(r@.map_values(|p: (String, i128)| (p.0@, p.1 as int)) =~~= Seq::<(
                    Seq<char>,
                    int,
                )>::empty());
            }
            return r;
        }
        let mut mn: i128 = ws[0];
        let mut mx: i128 = ws[0];
        let mut t: usize = 1;
        proof {
            assert(fin.take(1) =~= seq![fin[0]]);
        }
        while t < n
            invariant
                1 <= t <= n,
                mn as int == seq_min(fin.take(t as int)),
                mx as int == seq_max(fin.take(t as int)),
                mn != i128::MIN,
                mx != i128::MIN,
            decreases n - t,
        {
            proof {
                assert(fin.take(t as int + 1).drop_last() =~= fin.take(t as int));
                assert(fin.take(t as int + 1).last() == fin[t as int]);
            }
            if ws[t] < mn {
                mn = ws[t];
            }
            if ws[t] > mx {
                mx = ws[t];
            }
            t = t + 1;
        }
        proof {
            assert(fin.take(n as int) =~= fin);
        }
        let mn10 = tdiv_i128(mn, 10);
        let den = sat_sub(mx, mn10);
        let mut q: usize = 0;
        while q < n
            invariant
                q <= n,
                r@.len() == q,
                forall|u: int|
                    0 <= u < q ==> (#[trigger] r@[u]).0@ == ks[u] && r@[u].1 as int == rank_model(
                        gv,
                        d_i,
                    )[u],
            decreases n - q,
        {
            let v = tdiv_i128(sat_mul(sat_sub(ws[q], mn10), SCALE), den);
            proof {
                assert(v as int == normalize(fin[q as int], seq_min(fin), seq_max(fin)));
                assert(rank_model(gv, d_i)[q as int] == normalize(
                    fin[q as int],
                    seq_min(fin),
                    seq_max(fin),
                ));
            }
            let name = sorted[q].clone();
            proof {
                assert(name@ == ks[q as int]);
            }
            r.push((name, v));
            q = q + 1;
        }
        proof {
            let rm = r@.map_values(|p: (String, i128)| (p.0@, p.1 as int));
            assert forall|u: int| 0 <= u < rm.len() implies (#[trigger] rm[u]).0 == ks[u]
                && rm[u].1 == rank_model(gv, d_i)[u] by {
                assert(rm[u] == (r@[u].0@, r@[u].1 as int));
            }
        }
        r
    }
}

impl Default for UndirectWeightedGraph {
    /// An empty graph with the default damping numerator.
    fn default() -> (g: Self)
        ensures
            g.d == DEFAULT_DAMPING,
            g@ =~= Seq::<(Seq<char>, Seq<EdgeView>)>::empty(),
            g.wf(),
    {
        UndirectWeightedGraph::new(DEFAULT_DAMPING)
    }
}

/// Law: the node count of a well-formed graph is the number of distinct
/// identifiers over all inserted edges, not the edge count.
pub proof fn lemma_size_distinct(g: UndirectWeightedGraph)
    requires
        g.wf(),
    ensures
        keys_of(g@).no_duplicates(),
        keys_of(g@).to_set().len() == g@.len(),
{
    let ks = keys_of(g@);
    assert forall|i: int, j: int| 0 <= i < ks.len() && 0 <= j < ks.len() && i != j implies ks[i]
        != ks[j] by {
        if i < j {
            assert(g@[i].0 != g@[j].0);
        } else {
            assert(g@[j].0 != g@[i].0);
        }
    }
    ks.unique_seq_to_set();
}

/// Law: inserting an edge makes both of its endpoints present as keys,
/// each holding that edge in its adjacency list.
pub proof fn lemma_add_edge_endpoints(gv: GraphView, e: EdgeView)
    ensures
        has_key(attach(attach(gv, e.start, e), e.end, e), e.start),
        has_key(attach(attach(gv, e.start, e), e.end, e), e.end),
        edges_of(attach(attach(gv, e.start, e), e.end, e), e.start).contains(e),
        edges_of(attach(attach(gv, e.start, e), e.end, e), e.end).contains(e),
{
    let gv1 = attach(gv, e.start, e);
    let gv2 = attach(gv1, e.end, e);
    lemma_attach_has_key(gv, e.start, e, e.start);
    lemma_attach_has_key(gv1, e.end, e, e.start);
    lemma_attach_has_key(gv1, e.end, e, e.end);
    lemma_attach_edges_same(gv, e.start, e);
    lemma_attach_edges_same(gv1, e.end, e);
    let s1 = edges_of(gv1, e.start);
    assert(s1 =~= edges_of(gv, e.start).push(e));
    assert(s1[s1.len() - 1] == e);
    assert(s1.contains(e));
    let s2 = edges_of(gv2, e.end);
    assert(s2 =~= edges_of(gv1, e.end).push(e));
    assert(s2[s2.len() - 1] == e);
    assert(s2.contains(e));
    if e.start == e.end {
    } else {
        lemma_attach_edges_other(gv1, e.end, e, e.start);
        assert(edges_of(gv2, e.start) =~= s1);
    }
}

/// Law: a self-loop is appended twice to its single endpoint's adjacency
/// list, and its weight is counted twice in that node's out-sum.
pub proof fn lemma_self_loop(gv: GraphView, e: EdgeView)
    requires
        e.start == e.end,
    ensures
        edges_of(attach(attach(gv, e.start, e), e.end, e), e.start) =~= edges_of(
            gv,
            e.start,
        ).push(e).push(e),
        weight_sum(edges_of(attach(attach(gv, e.start, e), e.end, e), e.start)) == sat(
            sat(weight_sum(edges_of(gv, e.start)) + e.weight) + e.weight,
        ),
{
    let gv1 = attach(gv, e.start, e);
    lemma_attach_edges_same(gv, e.start, e);
    lemma_attach_edges_same(gv1, e.end, e);
    let s0 = edges_of(gv, e.start);
    let s2 = edges_of(attach(gv1, e.end, e), e.start);
    assert(s2 =~= s0.push(e).push(e));
    assert(s0.push(e).push(e).drop_last() =~= s0.push(e));
    assert(s0.push(e).drop_last() =~= s0);
    assert(weight_sum(s0.push(e)) == sat(weight_sum(s0) + e.weight));
    assert(weight_sum(s0.push(e).push(e)) == sat(weight_sum(s0.push(e)) + e.weight));
}

/// Law: ranking an empty graph yields an empty mapping, and in particular
/// never divides by the node count zero.
pub proof fn lemma_rank_empty(gv: GraphView, d: int)
    requires
        gv.len() == 0,
    ensures
        rank_model(gv, d) =~= Seq::<int>::empty(),
{
    assert(keys_of(gv) =~= Seq::<Seq<char>>::empty());
    assert(sort_ids(keys_of(gv)) =~= Seq::<Seq<char>>::empty());
}

/// Law: ranking is deterministic.  Any two results that correspond to the
/// same unmodified graph are identical, entry for entry.
pub proof fn lemma_rank_deterministic(
    g: UndirectWeightedGraph,
    r1: Seq<(Seq<char>, int)>,
    r2: Seq<(Seq<char>, int)>,
)
    requires
        rank_matches(g, r1),
        rank_matches(g, r2),
    ensures
        r1 =~= r2,
{
    let ks = sort_ids(keys_of(g@));
    let scores = rank_model(g@, g.d as int);
    assert forall|j: int| 0 <= j < r1.len() implies r1[j] == r2[j] by {
        assert(r1[j].0 == ks[j] && r1[j].1 == scores[j]);
        assert(r2[j].0 == ks[j] && r2[j].1 == scores[j]);
    }
}

/// Law: ranking reports the nodes in lexicographic order of their
/// identifiers, and reports exactly the graph's identifiers.
pub proof fn lemma_rank_order(g: UndirectWeightedGraph, r: Seq<(Seq<char>, int)>)
    requires
        rank_matches(g, r),
    ensures
        sorted_lex(r.map_values(|p: (Seq<char>, int)| p.0)),
        r.map_values(|p: (Seq<char>, int)| p.0).to_multiset() =~= keys_of(g@).to_multiset(),
{
    let ks = sort_ids(keys_of(g@));
    lemma_sort_ids_sorted(keys_of(g@));
    lemma_sort_ids_permutes(keys_of(g@));
    assert(r.map_values(|p: (Seq<char>, int)| p.0) =~~= ks);
}

/// Attaching an edge under both endpoints preserves well-formedness.
proof fn lemma_attach_wf(gv: GraphView, e: EdgeView)
    requires
        wf_view(gv),
    ensures
        wf_view(attach(attach(gv, e.start, e), e.end, e)),
{
    let gv1 = attach(gv, e.start, e);
    let gv2 = attach(gv1, e.end, e);
    lemma_find_key_props(gv, e.start);
    lemma_find_key_props(gv1, e.end);
    lemma_attach_keys(gv, e.start, e);
    lemma_attach_keys(gv1, e.end, e);
    // Keys stay pairwise distinct.
    lemma_attach_distinct(gv, e.start, e);
    lemma_attach_distinct(gv1, e.end, e);
    // Every stored edge still has both endpoints as keys.
    assert forall|i: int, k: int|
        0 <= i < gv2.len() && 0 <= k < gv2[i].1.len() implies has_key(
        gv2,
        (#[trigger] gv2[i].1[k]).start,
    ) && has_key(gv2, gv2[i].1[k].end) by {
        let x = gv2[i].1[k];
        lemma_attach_has_key(gv1, e.end, e, x.start);
        lemma_attach_has_key(gv1, e.end, e, x.end);
        lemma_attach_has_key(gv, e.start, e, x.start);
        lemma_attach_has_key(gv, e.start, e, x.end);
        lemma_attach_member_edges(gv1, e.end, e, i, k);
        if x != e {
            let (i1, k1): (int, int) = choose|i1: int, k1: int|
                0 <= i1 < gv1.len() && 0 <= k1 < gv1[i1].1.len() && (#[trigger] gv1[i1].1[k1])
                    == x;
            lemma_attach_member_edges(gv, e.start, e, i1, k1);
            let (i0, k0): (int, int) = choose|i0: int, k0: int|
                0 <= i0 < gv.len() && 0 <= k0 < gv[i0].1.len() && (#[trigger] gv[i0].1[k0]) == x;
            assert(has_key(gv, x.start) && has_key(gv, x.end));
        } else {
            lemma_attach_has_key(gv, e.start, e, e.start);
            lemma_attach_has_key(gv1, e.end, e, e.start);
            lemma_attach_has_key(gv1, e.end, e, e.end);
        }
    }
}

/// Every edge of an attached graph is either an old edge or the new one.
proof fn lemma_attach_member_edges(gv: GraphView, id: Seq<char>, e: EdgeView, i: int, k: int)
    requires
        0 <= i < attach(gv, id, e).len(),
        0 <= k < attach(gv, id, e)[i].1.len(),
    ensures
        attach(gv, id, e)[i].1[k] == e || (exists|i0: int, k0: int|
            0 <= i0 < gv.len() && 0 <= k0 < gv[i0].1.len() && (#[trigger] gv[i0].1[k0]) == attach(
                gv,
                id,
                e,
            )[i].1[k]),
{
    lemma_find_key_props(gv, id);
    match find_key(gv, id) {
        Some(n) => {
            if i == n {
                if k < gv[n].1.len() {
                    assert(gv[i].1[k] == attach(gv, id, e)[i].1[k]);
                } else {
                    assert(attach(gv, id, e)[i].1[k] == e);
                }
            } else {
                assert(gv[i].1[k] == attach(gv, id, e)[i].1[k]);
            }
        },
        None => {
            if i < gv.len() {
                assert(gv[i].1[k] == attach(gv, id, e)[i].1[k]);
            } else {
                assert(attach(gv, id, e)[i].1 =~= seq![e]);
            }
        },
    }
}

/// Attaching keeps the keys pairwise distinct.
proof fn lemma_attach_distinct(gv: GraphView, id: Seq<char>, e: EdgeView)
    requires
        forall|i: int, j: int|
            0 <= i < j < gv.len() ==> (#[trigger] gv[i].0) != (#[trigger] gv[j].0),
    ensures
        forall|i: int, j: int|
            0 <= i < j < attach(gv, id, e).len() ==> (#[trigger] attach(gv, id, e)[i].0)
                != (#[trigger] attach(gv, id, e)[j].0),
{
    lemma_find_key_props(gv, id);
    let gv2 = attach(gv, id, e);
    assert forall|i: int, j: int| 0 <= i < j < gv2.len() implies (#[trigger] gv2[i].0)
        != (#[trigger] gv2[j].0) by {
        match find_key(gv, id) {
            Some(n) => {
                assert(gv2[i].0 == gv[i].0);
                assert(gv2[j].0 == gv[j].0);
            },
            None => {
                if j < gv.len() {
                } else {
                    assert(gv2[j].0 == id);
                    assert(gv2[i].0 == gv[i].0);
                    assert(!has_key(gv, id));
                    assert(gv[i].0 != id);
                }
            },
        }
    }
}

} // verus!


