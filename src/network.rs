use vstd::prelude::*;
use crate::gene::Gene;
use crate::error::NeatError;
use crate::genome::Genome;
use crate::node::{LinkFrom, LinkTo, Node, NodeType, NodeView};

verus! {

/// The phenotype network in the abstract: node identifiers in arena order,
/// and each node by identifier.
pub ghost struct NetView {
    pub ids: Seq<u32>,
    pub nodes: Map<u32, NodeView>,
}

/// Role of a node identifier: 0 is the bias, 1..=n_in the inputs,
/// n_in+1..=n_in+n_out the outputs, anything above a hidden node.
pub open spec fn kind_of(id: u32, n_in: u32, n_out: u32) -> NodeType {
    if id == 0 {
        NodeType::BIAS
    } else if id <= n_in {
        NodeType::INPUT
    } else if id <= n_in + n_out {
        NodeType::OUTPUT
    } else {
        NodeType::HIDDEN
    }
}

/// The bias and the inputs start on layer 0; the other nodes have no layer yet.
pub open spec fn initial_layer(id: u32, n_in: u32) -> Option<usize> {
    if id <= n_in {
        Some(0usize)
    } else {
        None
    }
}

pub open spec fn fresh_node(id: u32, n_in: u32, n_out: u32) -> NodeView {
    NodeView {
        node_type: kind_of(id, n_in, n_out),
        succ: Seq::empty(),
        pred: Seq::empty(),
        layer: initial_layer(id, n_in),
    }
}

/// The reserved nodes (bias, inputs, outputs), at the positions equal to their
/// identifiers.
pub open spec fn reserved_view(n_in: u32, n_out: u32) -> NetView {
    NetView {
        ids: Seq::new((n_in + n_out + 1) as nat, |k: int| k as u32),
        nodes: Map::new(|id: u32| id <= n_in + n_out, |id: u32| fresh_node(id, n_in, n_out)),
    }
}

/// `v` with a hidden node `id` appended, if it has no node `id` yet.
pub open spec fn ensure_node(v: NetView, id: u32, n_in: u32, n_out: u32) -> NetView {
    if v.nodes.contains_key(id) {
        v
    } else {
        NetView { ids: v.ids.push(id), nodes: v.nodes.insert(id, fresh_node(id, n_in, n_out)) }
    }
}

/// `v` with the edge of gene `g` added: `to` becomes a successor of `from`,
/// and `(from, weight)` a predecessor of `to`.
pub open spec fn link_gene(v: NetView, g: Gene, n_in: u32, n_out: u32) -> NetView {
    let v1 = ensure_node(v, g.from, n_in, n_out);
    let f = v1.nodes[g.from];
    let v2 = NetView {
        nodes: v1.nodes.insert(g.from, NodeView { succ: f.succ.push(LinkTo { to: g.to }), ..f }),
        ..v1
    };
    let v3 = ensure_node(v2, g.to, n_in, n_out);
    let t = v3.nodes[g.to];
    NetView {
        nodes: v3.nodes.insert(
            g.to,
            NodeView { pred: t.pred.push(LinkFrom { from: g.from, weight: g.weight }), ..t },
        ),
        ..v3
    }
}

/// The network that a gene list compiles to: the reserved nodes, then each
/// enabled gene in order linked in.
pub open spec fn build_view(genes: Seq<Gene>, n_in: u32, n_out: u32) -> NetView
    decreases genes.len(),
{
    if genes.len() == 0 {
        reserved_view(n_in, n_out)
    } else {
        let v = build_view(genes.drop_last(), n_in, n_out);
        if genes.last().enabled {
            link_gene(v, genes.last(), n_in, n_out)
        } else {
            v
        }
    }
}

/// Number of nodes in the network that a gene list compiles to.
pub open spec fn node_count(genes: Seq<Gene>, n_in: u32, n_out: u32) -> nat {
    build_view(genes, n_in, n_out).ids.len()
}

} // verus!

verus! {

/// The arena (`ids`, `nodes`) holds exactly the nodes of `v`, one per
/// identifier, each at the position of its identifier.
pub open spec fn arena_matches(ids: Seq<u32>, nodes: Seq<Node>, v: NetView) -> bool {
    &&& ids == v.ids
    &&& ids.no_duplicates()
    &&& nodes.len() == ids.len()
    &&& forall|id: u32| v.nodes.contains_key(id) <==> ids.contains(id)
    &&& forall|k: int| 0 <= k < ids.len() ==> nodes[k]@ == v.nodes[ids[k]]
}

/// Every edge ends on nodes of the network.
pub open spec fn closed_under_edges(v: NetView) -> bool {
    &&& forall|id: u32, j: int|
        v.nodes.contains_key(id) && 0 <= j < v.nodes[id].pred.len() ==> v.nodes.contains_key(
            #[trigger] v.nodes[id].pred[j].from,
        )
    &&& forall|id: u32, j: int|
        v.nodes.contains_key(id) && 0 <= j < v.nodes[id].succ.len() ==> v.nodes.contains_key(
            #[trigger] v.nodes[id].succ[j].to,
        )
}

/// Two views with the same nodes and edges (layers aside).
pub open spec fn same_shape(v: NetView, w: NetView) -> bool {
    &&& v.ids == w.ids
    &&& v.nodes.dom() == w.nodes.dom()
    &&& forall|id: u32|
        #![trigger v.nodes[id]]
        v.nodes.contains_key(id) ==> v.nodes[id].node_type == w.nodes[id].node_type
            && v.nodes[id].pred == w.nodes[id].pred && v.nodes[id].succ == w.nodes[id].succ
}

/// `rank` strictly increases along every edge.
pub open spec fn ranked_by(v: NetView, rank: spec_fn(u32) -> nat) -> bool {
    forall|id: u32, j: int|
        v.nodes.contains_key(id) && 0 <= j < v.nodes[id].pred.len() ==> rank(
            #[trigger] v.nodes[id].pred[j].from,
        ) < rank(id)
}

/// The network's edges form no cycle.
pub open spec fn acyclic(v: NetView) -> bool {
    exists|rank: spec_fn(u32) -> nat| ranked_by(v, rank)
}

pub open spec fn layer_nat(l: Option<usize>) -> Option<nat> {
    match l {
        Some(x) => Some(x as nat),
        None => None,
    }
}

pub open spec fn max_opt(a: Option<nat>, b: Option<nat>) -> Option<nat> {
    match (a, b) {
        (Some(x), Some(y)) => Some(if x >= y { x } else { y }),
        (Some(x), None) => Some(x),
        (None, y) => y,
    }
}

/// One more than the largest layer among the predecessors that have one.
pub open spec fn feed_bound(preds: Seq<LinkFrom>, nodes: Map<u32, NodeView>) -> Option<nat>
    decreases preds.len(),
{
    if preds.len() == 0 {
        None
    } else {
        max_opt(
            feed_bound(preds.drop_last(), nodes),
            match layer_nat(nodes[preds.last().from].layer) {
                Some(l) => Some(l + 1),
                None => None,
            },
        )
    }
}

/// The layer that the propagation from the bias and the inputs gives node
/// `id`: the bias and the inputs have at least layer 0, and a node fed by
/// nodes with layers lies one beyond the deepest of them.
pub open spec fn expected_layer(v: NetView, id: u32, n_in: u32) -> Option<nat> {
    let b = feed_bound(v.nodes[id].pred, v.nodes);
    if id <= n_in {
        Some(
            match b {
                Some(x) => x,
                None => 0,
            },
        )
    } else {
        b
    }
}

/// Every node carries the layer that the propagation gives it.
pub open spec fn layered(v: NetView, n_in: u32) -> bool {
    forall|id: u32|
        #![trigger v.nodes[id]]
        v.nodes.contains_key(id) ==> layer_nat(v.nodes[id].layer) == expected_layer(v, id, n_in)
}

/// A compiled phenotype: the arena, the counts of reserved nodes, and an
/// evaluation order in which every node comes after all its predecessors.
pub struct Network {
    node_ids: Vec<u32>,
    nodes: Vec<Node>,
    n_inputs: u32,
    n_outputs: u32,
    order: Vec<usize>,
    model: Ghost<NetView>,
}

impl View for Network {
    type V = NetView;

    closed spec fn view(&self) -> NetView {
        self.model@
    }
}

impl Network {
    pub closed spec fn spec_n_inputs(&self) -> u32 {
        self.n_inputs
    }

    pub closed spec fn spec_n_outputs(&self) -> u32 {
        self.n_outputs
    }

    /// Positions of the arena in evaluation order.
    pub closed spec fn spec_order(&self) -> Seq<usize> {
        self.order@
    }

    /// Well-formed: the arena matches the view, edges stay inside, layers are
    /// the propagated ones, and the order lists every position once, after the
    /// positions of all its predecessors.
    pub closed spec fn wf(&self) -> bool {
        &&& arena_matches(self.node_ids@, self.nodes@, self.model@)
        &&& closed_under_edges(self.model@)
        &&& layered(self.model@, self.n_inputs)
        &&& acyclic(self.model@)
        &&& self.n_inputs + self.n_outputs < u32::MAX
        &&& topological(self.model@, self.order@)
    }
}

/// `order` lists every arena position exactly once, and each node's
/// predecessors come earlier in it.
pub open spec fn topological(v: NetView, order: Seq<usize>) -> bool {
    &&& order.len() == v.ids.len()
    &&& order.no_duplicates()
    &&& forall|t: int| 0 <= t < order.len() ==> (#[trigger] order[t]) < v.ids.len()
    &&& preds_before(v, order)
}

/// Each listed node's predecessors are listed before it.
pub open spec fn preds_before(v: NetView, order: Seq<usize>) -> bool {
    forall|t: int, j: int|
        #![trigger order[t], v.nodes[v.ids[order[t] as int]].pred[j]]
        0 <= t < order.len() && 0 <= j < v.nodes[v.ids[order[t] as int]].pred.len()
            ==> exists|u: int|
            0 <= u < t && v.ids[#[trigger] order[u] as int] == v.nodes[v.ids[
                order[t] as int
            ]].pred[j].from
}

/// Position of `id` in the arena, if it is there.
fn find_node(ids: &Vec<u32>, id: u32) -> (r: Option<usize>)
    ensures
        match r {
            Some(k) => k < ids.len() && ids@[k as int] == id,
            None => !ids@.contains(id),
        },
{
    let mut k: usize = 0;
    while k < ids.len()
        invariant
            0 <= k <= ids.len(),
            forall|x: int| 0 <= x < k ==> ids@[x] != id,
        decreases ids.len() - k,
    {
        if ids[k] == id {
            return Some(k);
        }
        k = k + 1;
    }
    None
}

/// Position of node `id`, appending a fresh node when the arena has none.
fn get_or_create_node(
    ids: &mut Vec<u32>,
    nodes: &mut Vec<Node>,
    id: u32,
    Ghost(v): Ghost<NetView>,
    Ghost(n_in): Ghost<u32>,
    Ghost(n_out): Ghost<u32>,
) -> (p: usize)
    requires
        arena_matches(old(ids)@, old(nodes)@, v),
        forall|x: u32| x <= n_in + n_out ==> v.nodes.contains_key(x),
    ensures
        arena_matches(final(ids)@, final(nodes)@, ensure_node(v, id, n_in, n_out)),
        p < final(ids).len(),
        final(ids)@[p as int] == id,
{
    match find_node(ids, id) {
        Some(p) => {
            assert(ids@.contains(id));
            p
        },
        None => {
            let ghost w = ensure_node(v, id, n_in, n_out);
            proof {
                assert(!v.nodes.contains_key(id));
                assert(id > n_in + n_out);
                assert(fresh_node(id, n_in, n_out) == Node::new_spec_hidden());
            }
            ids.push(id);
            nodes.push(Node::new(NodeType::HIDDEN, None));
            proof {
                assert(ids@.last() == id);
                assert(ids@.no_duplicates()) by {
                    assert forall|a: int, b: int| 0 <= a < b < ids@.len() implies ids@[a] != ids@[b] by {
                        if b == ids@.len() - 1 {
                            assert(old(ids)@.contains(ids@[a]));
                        }
                    }
                }
                assert forall|k: int| 0 <= k < ids@.len() implies nodes@[k]@ == w.nodes[ids@[k]] by {
                    if k < ids@.len() - 1 {
                        assert(old(ids)@.contains(ids@[k]));
                    }
                }
                assert forall|x: u32| w.nodes.contains_key(x) <==> ids@.contains(x) by {
                    if x != id && ids@.contains(x) {
                        let k = choose|k: int| 0 <= k < ids@.len() && ids@[k] == x;
                        assert(old(ids)@[k] == x);
                    }
                    if x == id {
                        assert(ids@[ids@.len() - 1] == id);
                    } else if old(ids)@.contains(x) {
                        let k = choose|k: int| 0 <= k < old(ids)@.len() && old(ids)@[k] == x;
                        assert(ids@[k] == x);
                    }
                }
            }
            assert(ids@ == w.ids);
            assert(nodes@.len() == ids@.len());
            assert(arena_matches(ids@, nodes@, w));
            ids.len() - 1
        },
    }
}

} // verus!

verus! {

/// The reserved nodes: bias, inputs (both on layer 0), then outputs.
fn build_inputs_outputs(n_in: u32, n_out: u32) -> (r: (Vec<u32>, Vec<Node>))
    requires
        n_in + n_out < u32::MAX,
    ensures
        arena_matches(r.0@, r.1@, reserved_view(n_in, n_out)),
{
    let mut ids: Vec<u32> = Vec::new();
    let mut nodes: Vec<Node> = Vec::new();
    let last: u32 = n_in + n_out;
    let mut id: u32 = 0;
    while id <= last
        invariant
            last == n_in + n_out,
            last < u32::MAX,
            id <= last + 1,
            ids@ == Seq::new(id as nat, |k: int| k as u32),
            nodes@.len() == id,
            forall|k: int| 0 <= k < id ==> nodes@[k]@ == fresh_node(k as u32, n_in, n_out),
        decreases last + 1 - id,
    {
        let node_type = if id == 0 {
            NodeType::BIAS
        } else if id <= n_in {
            NodeType::INPUT
        } else {
            NodeType::OUTPUT
        };
        let layer = if id <= n_in {
            Some(0usize)
        } else {
            None
        };
        nodes.push(Node::new(node_type, layer));
        ids.push(id);
        proof {
            assert(ids@ =~= Seq::new((id + 1) as nat, |k: int| k as u32));
        }
        id = id + 1;
    }
    proof {
        let v = reserved_view(n_in, n_out);
        assert(ids@ == v.ids);
        assert forall|x: u32| v.nodes.contains_key(x) <==> ids@.contains(x) by {
            if x <= n_in + n_out {
                assert(ids@[x as int] == x);
            }
        }
        assert forall|k: int| 0 <= k < ids@.len() implies nodes@[k]@ == v.nodes[ids@[k]] by {
            assert(ids@[k] == k as u32);
        }
    }
    (ids, nodes)
}

/// Links every enabled gene into the arena, creating hidden nodes on demand.
pub(crate) fn build_network(genes: &Vec<Gene>, n_in: u32, n_out: u32) -> (r: (Vec<u32>, Vec<Node>))
    requires
        n_in + n_out < u32::MAX,
    ensures
        arena_matches(r.0@, r.1@, build_view(genes@, n_in, n_out)),
        closed_under_edges(build_view(genes@, n_in, n_out)),
        forall|x: u32|
            x <= n_in + n_out ==> build_view(genes@, n_in, n_out).nodes.contains_key(x),
{
    let (mut ids, mut nodes) = build_inputs_outputs(n_in, n_out);
    let ghost mut v = reserved_view(n_in, n_out);
    let mut i: usize = 0;
    while i < genes.len()
        invariant
            0 <= i <= genes.len(),
            v == build_view(genes@.take(i as int), n_in, n_out),
            arena_matches(ids@, nodes@, v),
            closed_under_edges(v),
            forall|x: u32| x <= n_in + n_out ==> v.nodes.contains_key(x),
        decreases genes.len() - i,
    {
        let g = genes[i];
        assert(genes@.take(i + 1).drop_last() =~= genes@.take(i as int));
        if g.enabled {
            let p = get_or_create_node(&mut ids, &mut nodes, g.from, Ghost(v), Ghost(n_in), Ghost(n_out));
            let ghost v1 = ensure_node(v, g.from, n_in, n_out);
            let ghost f = v1.nodes[g.from];
            let ghost v2 = NetView {
                nodes: v1.nodes.insert(g.from, NodeView { succ: f.succ.push(LinkTo { to: g.to }), ..f }),
                ..v1
            };
            nodes[p].add_link_to(g.to);
            proof {
                assert forall|k: int| 0 <= k < ids@.len() implies nodes@[k]@ == v2.nodes[ids@[k]] by {
                    if k != p {
                        assert(ids@[k] != ids@[p as int]);
                    }
                }
                assert forall|x: u32| v2.nodes.contains_key(x) <==> ids@.contains(x) by {}
                assert forall|x: u32| x <= n_in + n_out implies v2.nodes.contains_key(x) by {}
            }
            let q = get_or_create_node(&mut ids, &mut nodes, g.to, Ghost(v2), Ghost(n_in), Ghost(n_out));
            let ghost v3 = ensure_node(v2, g.to, n_in, n_out);
            let ghost t = v3.nodes[g.to];
            let ghost v4 = NetView {
                nodes: v3.nodes.insert(
                    g.to,
                    NodeView { pred: t.pred.push(LinkFrom { from: g.from, weight: g.weight }), ..t },
                ),
                ..v3
            };
            nodes[q].add_link_from(g.from, g.weight);
            proof {
                assert forall|k: int| 0 <= k < ids@.len() implies nodes@[k]@ == v4.nodes[ids@[k]] by {
                    if k != q {
                        assert(ids@[k] != ids@[q as int]);
                    }
                }
                assert forall|x: u32| v4.nodes.contains_key(x) <==> ids@.contains(x) by {}
                assert(v4 == link_gene(v, g, n_in, n_out));
                assert(closed_under_edges(v4)) by {
                    assert forall|id: u32, j: int|
                        v4.nodes.contains_key(id) && 0 <= j < v4.nodes[id].pred.len()
                        implies v4.nodes.contains_key(#[trigger] v4.nodes[id].pred[j].from) by {
                        if id != g.to && id != g.from {
                            assert(v4.nodes[id] == v.nodes[id]);
                        } else if id == g.to {
                            if j < t.pred.len() {
                                assert(v4.nodes[id].pred[j] == t.pred[j]);
                            }
                        } else {
                            assert(v4.nodes[id].pred == v.nodes[id].pred);
                        }
                    }
                    assert forall|id: u32, j: int|
                        v4.nodes.contains_key(id) && 0 <= j < v4.nodes[id].succ.len()
                        implies v4.nodes.contains_key(#[trigger] v4.nodes[id].succ[j].to) by {
                        if id != g.to && id != g.from {
                            assert(v4.nodes[id] == v.nodes[id]);
                        } else if id == g.from {
                            if j < f.succ.len() {
                                assert(v2.nodes[id].succ[j] == f.succ[j]);
                            }
                        } else {
                            assert(v4.nodes[id].succ == v.nodes[id].succ);
                        }
                    }
                }
                v = v4;
            }
        }
        i = i + 1;
    }
    assert(genes@.take(genes.len() as int) =~= genes@);
    (ids, nodes)
}

} // verus!

verus! {

pub open spec fn count_unplaced(s: Seq<bool>) -> nat
    decreases s.len(),
{
    if s.len() == 0 {
        0
    } else {
        count_unplaced(s.drop_last()) + if s.last() {
            0nat
        } else {
            1nat
        }
    }
}

proof fn lemma_count_unplaced_update(s: Seq<bool>, k: int)
    requires
        0 <= k < s.len(),
        !s[k],
    ensures
        count_unplaced(s.update(k, true)) + 1 == count_unplaced(s),
    decreases s.len(),
{
    let t = s.update(k, true);
    if k < s.len() - 1 {
        assert(t.drop_last() =~= s.drop_last().update(k, true));
        lemma_count_unplaced_update(s.drop_last(), k);
    } else {
        assert(t.drop_last() =~= s.drop_last());
    }
}

proof fn lemma_count_unplaced_zero(s: Seq<bool>)
    requires
        count_unplaced(s) == 0,
    ensures
        forall|k: int| 0 <= k < s.len() ==> s[k],
    decreases s.len(),
{
    if s.len() > 0 {
        lemma_count_unplaced_zero(s.drop_last());
        assert forall|k: int| 0 <= k < s.len() implies s[k] by {
            if k < s.len() - 1 {
                assert(s.drop_last()[k] == s[k]);
            }
        }
    }
}

proof fn lemma_feed_bound_frame(preds: Seq<LinkFrom>, m1: Map<u32, NodeView>, m2: Map<u32, NodeView>)
    requires
        forall|j: int| 0 <= j < preds.len() ==> m1[preds[j].from].layer == m2[preds[j].from].layer,
    ensures
        feed_bound(preds, m1) == feed_bound(preds, m2),
    decreases preds.len(),
{
    if preds.len() > 0 {
        lemma_feed_bound_frame(preds.drop_last(), m1, m2);
    }
}

proof fn lemma_ranked_same_shape(v: NetView, w: NetView, rank: spec_fn(u32) -> nat)
    requires
        same_shape(v, w),
        ranked_by(w, rank),
    ensures
        ranked_by(v, rank),
{
    assert forall|id: u32, j: int|
        v.nodes.contains_key(id) && 0 <= j < v.nodes[id].pred.len() implies rank(
            #[trigger] v.nodes[id].pred[j].from,
        ) < rank(id) by {
        assert(v.nodes[id].pred == w.nodes[id].pred);
        assert(w.nodes.contains_key(id));
        assert(rank(w.nodes[id].pred[j].from) < rank(id));
    }
}

/// A set of nodes in which every node has a predecessor inside the set lies
/// on a cycle: no ranking exists.
proof fn lemma_blocked_not_acyclic(v: NetView, placed: Seq<bool>, k0: int)
    requires
        placed.len() == v.ids.len(),
        forall|id: u32| v.nodes.contains_key(id) <==> v.ids.contains(id),
        0 <= k0 < placed.len(),
        !placed[k0],
        forall|k: int|
            0 <= k < placed.len() && !placed[k] ==> exists|j: int, q: int|
                0 <= j < v.nodes[v.ids[k]].pred.len() && 0 <= q < placed.len() && !placed[q]
                    && v.ids[q] == v.nodes[v.ids[k]].pred[j].from,
    ensures
        !acyclic(v),
{
    if acyclic(v) {
        let rank = choose|rank: spec_fn(u32) -> nat| ranked_by(v, rank);
        let m = rank(v.ids[k0]) + 1;
        lemma_rank_unbounded(v, placed, rank, m);
        assert(rank(v.ids[k0]) >= m);
    }
}

proof fn lemma_rank_unbounded(v: NetView, placed: Seq<bool>, rank: spec_fn(u32) -> nat, m: nat)
    requires
        placed.len() == v.ids.len(),
        forall|id: u32| v.nodes.contains_key(id) <==> v.ids.contains(id),
        ranked_by(v, rank),
        forall|k: int|
            0 <= k < placed.len() && !placed[k] ==> exists|j: int, q: int|
                0 <= j < v.nodes[v.ids[k]].pred.len() && 0 <= q < placed.len() && !placed[q]
                    && v.ids[q] == v.nodes[v.ids[k]].pred[j].from,
    ensures
        forall|k: int| 0 <= k < placed.len() && !placed[k] ==> rank(v.ids[k]) >= m,
    decreases m,
{
    if m > 0 {
        lemma_rank_unbounded(v, placed, rank, (m - 1) as nat);
        assert forall|k: int| 0 <= k < placed.len() && !placed[k] implies rank(v.ids[k]) >= m by {
            let (j, q) = choose|j: int, q: int|
                0 <= j < v.nodes[v.ids[k]].pred.len() && 0 <= q < placed.len() && !placed[q]
                    && v.ids[q] == v.nodes[v.ids[k]].pred[j].from;
            assert(v.ids.contains(v.ids[k]));
            assert(rank(v.nodes[v.ids[k]].pred[j].from) < rank(v.ids[k]));
        }
    }
}

/// An order in which every node follows its predecessors ranks the network.
proof fn lemma_topological_acyclic(v: NetView, order: Seq<usize>)
    requires
        topological(v, order),
        v.ids.no_duplicates(),
        forall|id: u32| v.nodes.contains_key(id) <==> v.ids.contains(id),
        forall|k: usize| k < v.ids.len() ==> order.contains(k),
        v.ids.len() <= usize::MAX,
    ensures
        acyclic(v),
{
    let rank = |id: u32|
        (choose|u: int| 0 <= u < order.len() && v.ids[order[u] as int] == id) as nat;
    assert forall|id: u32, j: int|
        v.nodes.contains_key(id) && 0 <= j < v.nodes[id].pred.len() implies rank(
            #[trigger] v.nodes[id].pred[j].from,
        ) < rank(id) by {
        assert(v.ids.contains(id));
        let k = choose|k: int| 0 <= k < v.ids.len() && v.ids[k] == id;
        assert(order.contains(k as usize));
        let t = choose|t: int| 0 <= t < order.len() && order[t] == k as usize;
        assert(0 <= t < order.len() && v.ids[order[t] as int] == id);
        let tc = choose|u: int| 0 <= u < order.len() && v.ids[order[u] as int] == id;
        assert(order[tc] == order[t]) by {
            assert(v.ids[order[tc] as int] == v.ids[order[t] as int]);
        }
        assert(tc == t);
        let from = v.nodes[id].pred[j].from;
        assert(v.nodes[v.ids[order[t] as int]].pred[j] == v.nodes[id].pred[j]);
        let u = choose|u: int| 0 <= u < t && v.ids[#[trigger] order[u] as int] == from;
        let uc = choose|x: int| 0 <= x < order.len() && v.ids[order[x] as int] == from;
        assert(order[uc] == order[u]) by {
            assert(v.ids[order[uc] as int] == v.ids[order[u] as int]);
        }
        assert(uc == u);
    }
    assert(ranked_by(v, rank));
}

} // verus!

verus! {

/// Some predecessor of the node at position `k` sits at an unplaced position.
pub open spec fn blocked(v: NetView, placed: Seq<bool>, k: int) -> bool {
    exists|j: int, q: int|
        0 <= j < v.nodes[v.ids[k]].pred.len() && 0 <= q < placed.len() && !placed[q] && v.ids[q]
            == v.nodes[v.ids[k]].pred[j].from
}

/// Every predecessor of the node at position `k` sits at a placed position.
pub open spec fn ready(v: NetView, placed: Seq<bool>, k: int) -> bool {
    forall|j: int|
        0 <= j < v.nodes[v.ids[k]].pred.len() ==> exists|q: int|
            0 <= q < placed.len() && placed[q] && v.ids[q] == #[trigger] v.nodes[v.ids[k]].pred[j].from
}

/// Placed nodes with a layer have one below `limit`.
pub open spec fn layers_below(nodes: Seq<Node>, placed: Seq<bool>, limit: nat) -> bool {
    forall|q: int|
        0 <= q < placed.len() && placed[q] && (#[trigger] nodes[q]).layer.is_some()
            ==> nodes[q].layer.unwrap() < limit
}

fn check_ready(
    ids: &Vec<u32>,
    nodes: &Vec<Node>,
    placed: &Vec<bool>,
    k: usize,
    Ghost(w): Ghost<NetView>,
    Ghost(limit): Ghost<nat>,
) -> (r: (bool, Option<usize>))
    requires
        arena_matches(ids@, nodes@, w),
        closed_under_edges(w),
        placed.len() == ids.len(),
        k < ids.len(),
        layers_below(nodes@, placed@, limit),
        limit <= usize::MAX,
    ensures
        r.0 ==> ready(w, placed@, k as int),
        r.0 ==> layer_nat(r.1) == feed_bound(w.nodes[ids@[k as int]].pred, w.nodes),
        r.0 && r.1.is_some() ==> r.1.unwrap() <= limit,
        !r.0 ==> blocked(w, placed@, k as int),
{
    let ghost id = ids@[k as int];
    let ghost preds = w.nodes[id].pred;
    assert(nodes@[k as int]@ == w.nodes[id]);
    let mut j: usize = 0;
    let mut bound: Option<usize> = None;
    let n_preds = nodes[k].pred.len();
    while j < n_preds
        invariant
            arena_matches(ids@, nodes@, w),
            closed_under_edges(w),
            placed.len() == ids.len(),
            k < ids.len(),
            id == ids@[k as int],
            preds == w.nodes[id].pred,
            nodes@[k as int].pred@ == preds,
            n_preds == preds.len(),
            layers_below(nodes@, placed@, limit),
            limit <= usize::MAX,
            0 <= j <= n_preds,
            forall|j2: int|
                0 <= j2 < j ==> exists|q: int|
                    0 <= q < placed.len() && placed[q] && ids@[q] == #[trigger] preds[j2].from,
            layer_nat(bound) == feed_bound(preds.take(j as int), w.nodes),
            bound.is_some() ==> bound.unwrap() <= limit,
        decreases n_preds - j,
    {
        let from = nodes[k].pred[j].from;
        assert(preds.take(j + 1).drop_last() =~= preds.take(j as int));
        proof {
            assert(w.nodes.contains_key(id)) by {
                assert(ids@.contains(id));
            }
            assert(w.nodes.contains_key(w.nodes[id].pred[j as int].from));
        }
        match find_node(ids, from) {
            None => {
                proof {
                    assert(false);
                }
                return (false, None);
            },
            Some(q) => {
                if !placed[q] {
                    assert(blocked(w, placed@, k as int)) by {
                        assert(0 <= j < preds.len() && 0 <= q < placed.len() && !placed[q as int]
                            && ids@[q as int] == preds[j as int].from);
                    }
                    return (false, None);
                }
                assert(nodes@[q as int]@ == w.nodes[from]);
                let cand: Option<usize> = match nodes[q].layer {
                    Some(l) => Some(l + 1),
                    None => None,
                };
                bound = match (bound, cand) {
                    (Some(x), Some(y)) => Some(if x >= y { x } else { y }),
                    (Some(x), None) => Some(x),
                    (None, y) => y,
                };
                proof {
                    assert(preds.take(j + 1).last() == preds[j as int]);
                    assert(0 <= q < placed.len() && placed[q as int] && ids@[q as int] == preds[j as int].from);
                }
            },
        }
        j = j + 1;
    }
    assert(preds.take(n_preds as int) =~= preds);
    (true, bound)
}

/// First unplaced position whose predecessors are all placed, with the bound
/// they give its layer; `None` when every unplaced position is blocked.
fn find_ready(
    ids: &Vec<u32>,
    nodes: &Vec<Node>,
    placed: &Vec<bool>,
    Ghost(w): Ghost<NetView>,
    Ghost(limit): Ghost<nat>,
) -> (r: Option<(usize, Option<usize>)>)
    requires
        arena_matches(ids@, nodes@, w),
        closed_under_edges(w),
        placed.len() == ids.len(),
        layers_below(nodes@, placed@, limit),
        limit <= usize::MAX,
    ensures
        match r {
            Some((k, b)) => k < ids.len() && !placed@[k as int] && ready(w, placed@, k as int)
                && layer_nat(b) == feed_bound(w.nodes[ids@[k as int]].pred, w.nodes) && (b.is_some()
                ==> b.unwrap() <= limit),
            None => forall|k: int| 0 <= k < ids.len() && !placed@[k] ==> blocked(w, placed@, k),
        },
{
    let mut k: usize = 0;
    while k < ids.len()
        invariant
            arena_matches(ids@, nodes@, w),
            closed_under_edges(w),
            placed.len() == ids.len(),
            layers_below(nodes@, placed@, limit),
            limit <= usize::MAX,
            0 <= k <= ids.len(),
            forall|k2: int| 0 <= k2 < k && !placed@[k2] ==> blocked(w, placed@, k2),
        decreases ids.len() - k,
    {
        if !placed[k] {
            let (is_ready, b) = check_ready(ids, nodes, placed, k, Ghost(w), Ghost(limit));
            if is_ready {
                return Some((k, b));
            }
        }
        k = k + 1;
    }
    None
}

proof fn lemma_count_unplaced_all_placed(s: Seq<bool>)
    requires
        forall|k: int| 0 <= k < s.len() ==> s[k],
    ensures
        count_unplaced(s) == 0,
    decreases s.len(),
{
    if s.len() > 0 {
        lemma_count_unplaced_all_placed(s.drop_last());
    }
}

} // verus!

verus! {

/// Assigns every node the layer that propagation from the bias and the inputs
/// gives it, visiting nodes in an order where each follows its predecessors.
/// Returns that order, or `None` when the edges form a cycle.
fn compute_layers(ids: &Vec<u32>, nodes: &mut Vec<Node>, n_in: u32, Ghost(built): Ghost<NetView>) -> (r: (
    Option<Vec<usize>>,
    Ghost<NetView>,
))
    requires
        arena_matches(ids@, old(nodes)@, built),
        closed_under_edges(built),
    ensures
        arena_matches(ids@, final(nodes)@, r.1@),
        same_shape(r.1@, built),
        closed_under_edges(r.1@),
        match r.0 {
            Some(order) => layered(r.1@, n_in) && topological(r.1@, order@) && acyclic(r.1@),
            None => !acyclic(built),
        },
{
    let n = ids.len();
    let mut placed: Vec<bool> = Vec::new();
    while placed.len() < n
        invariant
            placed.len() <= n,
            forall|q: int| 0 <= q < placed.len() ==> !placed@[q],
            count_unplaced(placed@) == placed.len(),
        decreases n - placed.len(),
    {
        let ghost prev = placed@;
        placed.push(false);
        assert(placed@.drop_last() =~= prev);
    }
    let mut order: Vec<usize> = Vec::new();
    let ghost mut w = built;
    loop
        invariant
            n == ids.len(),
            placed.len() == n,
            arena_matches(ids@, nodes@, w),
            same_shape(w, built),
            closed_under_edges(w),
            order.len() + count_unplaced(placed@) == n,
            order@.no_duplicates(),
            forall|t: int| 0 <= t < order.len() ==> (#[trigger] order@[t]) < n && placed@[order@[t] as int],
            forall|q: usize| q < n && placed@[q as int] ==> order@.contains(q),
            preds_before(w, order@),
            forall|q: int|
                0 <= q < n && placed@[q] ==> layer_nat((#[trigger] nodes@[q]).layer) == expected_layer(
                    w,
                    ids@[q],
                    n_in,
                ),
            layers_below(nodes@, placed@, order.len() as nat),
        decreases count_unplaced(placed@),
    {
        match find_ready(ids, nodes, &placed, Ghost(w), Ghost(order.len() as nat)) {
            None => {
                if order.len() == n {
                    proof {
                        assert(count_unplaced(placed@) == 0);
                        lemma_count_unplaced_zero(placed@);
                        lemma_topological_acyclic(w, order@);
                        assert forall|x: u32| #![trigger w.nodes[x]] w.nodes.contains_key(x) implies layer_nat(
                            w.nodes[x].layer,
                        ) == expected_layer(w, x, n_in) by {
                            assert(ids@.contains(x));
                            let q = choose|q: int| 0 <= q < ids.len() && ids@[q] == x;
                            assert(placed@[q]);
                            assert(nodes@[q]@ == w.nodes[x]);
                        }
                    }
                    return (Some(order), Ghost(w));
                } else {
                    proof {
                        if forall|k: int| 0 <= k < n ==> placed@[k] {
                            lemma_count_unplaced_all_placed(placed@);
                        }
                        let k0 = choose|k: int| 0 <= k < n && !placed@[k];
                        lemma_blocked_not_acyclic(w, placed@, k0);
                        if acyclic(built) {
                            let rank = choose|rank: spec_fn(u32) -> nat| ranked_by(built, rank);
                            lemma_ranked_same_shape(w, built, rank);
                        }
                    }
                    return (None, Ghost(w));
                }
            },
            Some((k, b)) => {
                let ghost old_w = w;
                let ghost old_nodes = nodes@;
                let ghost old_placed = placed@;
                let ghost old_order = order@;
                let ghost id = ids@[k as int];
                let new_layer: Option<usize> = if ids[k] <= n_in {
                    match b {
                        Some(x) => Some(x),
                        None => Some(0usize),
                    }
                } else {
                    b
                };
                nodes[k].layer = new_layer;
                proof {
                    w = NetView { nodes: w.nodes.insert(id, NodeView { layer: new_layer, ..w.nodes[id] }), ..w };
                    assert(old_w.nodes.contains_key(id)) by {
                        assert(ids@.contains(id));
                    }
                    assert(w.nodes.dom() =~= old_w.nodes.dom());
                    assert forall|q: int| 0 <= q < ids.len() implies nodes@[q]@ == w.nodes[ids@[q]] by {
                        if q != k {
                            assert(ids@[q] != id);
                        }
                    }
                    assert forall|x: u32| #![trigger w.nodes[x]] w.nodes.contains_key(x) implies w.nodes[x].pred
                        == old_w.nodes[x].pred && w.nodes[x].succ == old_w.nodes[x].succ
                        && w.nodes[x].node_type == old_w.nodes[x].node_type by {}
                    assert(closed_under_edges(w)) by {
                        assert forall|x: u32, j: int|
                            w.nodes.contains_key(x) && 0 <= j < w.nodes[x].pred.len()
                            implies w.nodes.contains_key(#[trigger] w.nodes[x].pred[j].from) by {
                            assert(old_w.nodes.contains_key(old_w.nodes[x].pred[j].from));
                        }
                        assert forall|x: u32, j: int|
                            w.nodes.contains_key(x) && 0 <= j < w.nodes[x].succ.len()
                            implies w.nodes.contains_key(#[trigger] w.nodes[x].succ[j].to) by {
                            assert(old_w.nodes.contains_key(old_w.nodes[x].succ[j].to));
                        }
                    }
                    // The new node's predecessors are placed, hence not the node itself.
                    assert forall|j: int| 0 <= j < w.nodes[id].pred.len() implies w.nodes[
                        w.nodes[id].pred[j].from].layer == old_w.nodes[w.nodes[id].pred[j].from].layer by {
                        let from = old_w.nodes[id].pred[j].from;
                        let q = choose|q: int|
                            0 <= q < old_placed.len() && old_placed[q] && ids@[q] == from;
                        assert(q != k);
                        assert(from != id);
                    }
                    lemma_feed_bound_frame(w.nodes[id].pred, w.nodes, old_w.nodes);
                }
                placed.set(k, true);
                order.push(k);
                proof {
                    lemma_count_unplaced_update(old_placed, k as int);
                    assert(!old_order.contains(k));
                    assert(order@.no_duplicates()) by {
                        assert forall|a: int, c: int| 0 <= a < c < order.len() implies order@[a] != order@[c] by {
                            if c == order.len() - 1 {
                                assert(old_order.contains(old_order[a]));
                            }
                        }
                    }
                    assert forall|q: usize| q < n && placed@[q as int] implies order@.contains(q) by {
                        if q == k {
                            assert(order@[order.len() - 1] == k);
                        } else {
                            assert(old_order.contains(q));
                            let t = choose|t: int| 0 <= t < old_order.len() && old_order[t] == q;
                            assert(order@[t] == q);
                        }
                    }
                    assert forall|t: int| 0 <= t < order.len() implies (#[trigger] order@[t]) < n
                        && placed@[order@[t] as int] by {
                        if t < old_order.len() {
                            assert(order@[t] == old_order[t]);
                        }
                    }
                    // Predecessors come first, for the old entries and the new one.
                    assert forall|t: int, j: int|
                        #![trigger order@[t], w.nodes[w.ids[order@[t] as int]].pred[j]]
                        0 <= t < order.len() && 0 <= j < w.nodes[w.ids[order@[t] as int]].pred.len()
                        implies exists|u: int|
                        0 <= u < t && w.ids[#[trigger] order@[u] as int] == w.nodes[w.ids[
                            order@[t] as int
                        ]].pred[j].from by {
                        let x = w.ids[order@[t] as int];
                        assert(w.nodes[x].pred == old_w.nodes[x].pred);
                        if t < old_order.len() {
                            assert(order@[t] == old_order[t]);
                            let u = choose|u: int|
                                0 <= u < t && old_w.ids[#[trigger] old_order[u] as int]
                                    == old_w.nodes[old_w.ids[old_order[t] as int]].pred[j].from;
                            assert(order@[u] == old_order[u]);
                        } else {
                            let from = old_w.nodes[id].pred[j].from;
                            let q = choose|q: int|
                                0 <= q < old_placed.len() && old_placed[q] && ids@[q] == from;
                            assert(old_order.contains(q as usize));
                            let u = choose|u: int| 0 <= u < old_order.len() && old_order[u] == q as usize;
                            assert(order@[u] == old_order[u]);
                        }
                    }
                    // Layers of nodes placed earlier are unchanged: none of their
                    // predecessors is the new node.
                    assert forall|q: int|
                        0 <= q < n && placed@[q] implies layer_nat((#[trigger] nodes@[q]).layer)
                        == expected_layer(w, ids@[q], n_in) by {
                        if q != k {
                            let x = ids@[q];
                            assert(old_order.contains(q as usize));
                            let t = choose|t: int| 0 <= t < old_order.len() && old_order[t] == q as usize;
                            assert forall|j: int| 0 <= j < w.nodes[x].pred.len() implies w.nodes[
                                w.nodes[x].pred[j].from].layer == old_w.nodes[w.nodes[x].pred[j].from].layer by {
                                assert(old_w.nodes[old_w.ids[old_order[t] as int]].pred[j]
                                    == old_w.nodes[x].pred[j]);
                                let u = choose|u: int|
                                    0 <= u < t && old_w.ids[#[trigger] old_order[u] as int]
                                        == old_w.nodes[old_w.ids[old_order[t] as int]].pred[j].from;
                                assert(old_order[u] != k);
                                assert(ids@[old_order[u] as int] != id);
                            }
                            lemma_feed_bound_frame(w.nodes[x].pred, w.nodes, old_w.nodes);
                            assert(nodes@[q] == old_nodes[q]);
                        }
                    }
                    assert(layers_below(nodes@, placed@, order.len() as nat)) by {
                        assert forall|q: int|
                            0 <= q < placed.len() && placed@[q] && (#[trigger] nodes@[q]).layer.is_some()
                            implies nodes@[q].layer.unwrap() < order.len() by {
                            if q != k {
                                assert(nodes@[q] == old_nodes[q]);
                            }
                        }
                    }
                }
            },
        }
    }
}

} // verus!

verus! {

pub(crate) proof fn lemma_acyclic_same_shape(v: NetView, w: NetView)
    requires
        same_shape(v, w),
        acyclic(w),
    ensures
        acyclic(v),
{
    let rank = choose|rank: spec_fn(u32) -> nat| ranked_by(w, rank);
    lemma_ranked_same_shape(v, w, rank);
}

pub(crate) proof fn lemma_same_shape_symmetric(v: NetView, w: NetView)
    requires
        same_shape(v, w),
    ensures
        same_shape(w, v),
{
    assert forall|id: u32| #![trigger w.nodes[id]] w.nodes.contains_key(id) implies w.nodes[id].node_type
        == v.nodes[id].node_type && w.nodes[id].pred == v.nodes[id].pred && w.nodes[id].succ
        == v.nodes[id].succ by {
        assert(v.nodes.dom().contains(id));
    }
}

impl Network {
    /// Compiles the enabled genes of a gene list into a network and layers it.
    /// Fails exactly when the enabled genes form a cycle.
    pub fn from_genes(genes: &Vec<Gene>, n_inputs: u32, n_outputs: u32) -> (r: Result<Network, NeatError>)
        requires
            n_inputs + n_outputs < u32::MAX,
        ensures
            r is Ok <==> acyclic(build_view(genes@, n_inputs, n_outputs)),
            r is Err ==> r == Err::<Network, NeatError>(NeatError::InvalidTopology),
            r matches Ok(net) ==> net.wf() && same_shape(net@, build_view(genes@, n_inputs, n_outputs))
                && net.spec_n_inputs() == n_inputs && net.spec_n_outputs() == n_outputs,
    {
        let (node_ids, mut nodes) = build_network(genes, n_inputs, n_outputs);
        let ghost built = build_view(genes@, n_inputs, n_outputs);
        let (order, Ghost(v)) = compute_layers(&node_ids, &mut nodes, n_inputs, Ghost(built));
        match order {
            Some(order) => {
                proof {
                    lemma_same_shape_symmetric(v, built);
                    lemma_acyclic_same_shape(built, v);
                }
                Ok(Network { node_ids, nodes, n_inputs, n_outputs, order, model: Ghost(v) })
            },
            None => Err(NeatError::InvalidTopology),
        }
    }

    /// Number of nodes.
    pub fn len(&self) -> (r: usize)
        requires
            self.wf(),
        ensures
            r == self@.ids.len(),
    {
        self.node_ids.len()
    }

    /// Identifier of the node at arena position `k`: the reserved nodes sit at
    /// their own identifiers, hidden nodes follow in order of creation.
    pub fn node_id(&self, k: usize) -> (r: u32)
        requires
            self.wf(),
            k < self@.ids.len(),
        ensures
            r == self@.ids[k as int],
    {
        self.node_ids[k]
    }

    /// The node with identifier `id`, if the network has one.
    pub fn get_node(&self, id: u32) -> (r: Option<&Node>)
        requires
            self.wf(),
        ensures
            match r {
                Some(node) => self@.nodes.contains_key(id) && node@ == self@.nodes[id],
                None => !self@.nodes.contains_key(id),
            },
    {
        match find_node(&self.node_ids, id) {
            Some(k) => {
                assert(self.node_ids@.contains(id));
                assert(self.nodes@[k as int]@ == self.model@.nodes[id]);
                Some(&self.nodes[k])
            },
            None => None,
        }
    }

    /// Identifiers of all nodes, each once, every node after all of its
    /// predecessors: an order in which to evaluate them.
    pub fn evaluation_order(&self) -> (r: Vec<u32>)
        requires
            self.wf(),
        ensures
            r@ == self.spec_order().map_values(|k: usize| self@.ids[k as int]),
            r.len() == self@.ids.len(),
            r@.no_duplicates(),
            forall|t: int| 0 <= t < r.len() ==> self@.nodes.contains_key(#[trigger] r@[t]),
            forall|t: int, j: int|
                #![trigger r@[t], self@.nodes[r@[t]].pred[j]]
                0 <= t < r.len() && 0 <= j < self@.nodes[r@[t]].pred.len() ==> exists|u: int|
                    0 <= u < t && #[trigger] r@[u] == self@.nodes[r@[t]].pred[j].from,
    {
        let mut r: Vec<u32> = Vec::new();
        let mut t: usize = 0;
        while t < self.order.len()
            invariant
                self.wf(),
                0 <= t <= self.order.len(),
                r.len() == t,
                forall|x: int| 0 <= x < t ==> r@[x] == self.node_ids@[self.order@[x] as int],
            decreases self.order.len() - t,
        {
            r.push(self.node_ids[self.order[t]]);
            t = t + 1;
        }
        proof {
            let v = self.model@;
            let order = self.order@;
            assert(r@ =~= order.map_values(|k: usize| v.ids[k as int]));
            assert forall|a: int, c: int| 0 <= a < c < r.len() implies r@[a] != r@[c] by {
                assert(order[a] != order[c]);
            }
            assert forall|x: int| 0 <= x < r.len() implies self@.nodes.contains_key(#[trigger] r@[x]) by {
                assert(v.ids.contains(v.ids[order[x] as int]));
            }
            assert forall|x: int, j: int|
                #![trigger r@[x], self@.nodes[r@[x]].pred[j]]
                0 <= x < r.len() && 0 <= j < self@.nodes[r@[x]].pred.len() implies exists|u: int|
                0 <= u < x && #[trigger] r@[u] == self@.nodes[r@[x]].pred[j].from by {
                let u = choose|u: int|
                    0 <= u < x && v.ids[#[trigger] order[u] as int] == v.nodes[v.ids[
                        order[x] as int
                    ]].pred[j].from;
                assert(r@[u] == v.ids[order[u] as int]);
            }
        }
        r
    }
}

} // verus!

verus! {

pub(crate) proof fn lemma_wf_acyclic(net: &Network)
    requires
        net.wf(),
    ensures
        acyclic(net@),
{
}

} // verus!

verus! {

proof fn lemma_feed_bound_covers(preds: Seq<LinkFrom>, nodes: Map<u32, NodeView>, j: int)
    requires
        0 <= j < preds.len(),
        nodes[preds[j].from].layer is Some,
    ensures
        feed_bound(preds, nodes) is Some,
        feed_bound(preds, nodes).unwrap() > nodes[preds[j].from].layer.unwrap(),
    decreases preds.len(),
{
    if j < preds.len() - 1 {
        lemma_feed_bound_covers(preds.drop_last(), nodes, j);
    }
}

/// In a compiled network every edge goes forward: a node fed by a node that
/// has a layer has a layer itself, strictly greater.
pub proof fn lemma_layers_feed_forward(net: &Network, id: u32, j: int)
    requires
        net.wf(),
        net@.nodes.contains_key(id),
        0 <= j < net@.nodes[id].pred.len(),
        net@.nodes[net@.nodes[id].pred[j].from].layer is Some,
    ensures
        net@.nodes[id].layer is Some,
        net@.nodes[id].layer.unwrap() > net@.nodes[net@.nodes[id].pred[j].from].layer.unwrap(),
{
    let v = net@;
    lemma_feed_bound_covers(v.nodes[id].pred, v.nodes, j);
    assert(layer_nat(v.nodes[id].layer) == expected_layer(v, id, net.spec_n_inputs()));
}

} // verus!

verus! {

/// Layer of a node as a number: a node without a layer counts as layer 0.
pub open spec fn layer_value(v: NetView, id: u32) -> nat {
    match v.nodes[id].layer {
        Some(l) => l as nat,
        None => 0,
    }
}

/// Layer from which a link out of `a` may start: `a`'s own, and at least 1.
pub open spec fn min_target_layer(v: NetView, a: u32) -> nat {
    if layer_value(v, a) >= 1 {
        layer_value(v, a)
    } else {
        1
    }
}

/// `b` may receive a new link from `a`: it is not before `a` in layer order,
/// is not already a successor of `a`, and is not `a`.
pub open spec fn linkable(v: NetView, a: u32, b: u32) -> bool {
    &&& layer_value(v, b) >= min_target_layer(v, a)
    &&& !v.nodes[a].succ.contains(LinkTo { to: b })
    &&& a != b
}

/// The nodes among `ids` that may receive a new link from `a`, in order.
pub open spec fn link_targets(v: NetView, ids: Seq<u32>, a: u32) -> Seq<u32>
    decreases ids.len(),
{
    if ids.len() == 0 {
        Seq::empty()
    } else {
        let rest = link_targets(v, ids.drop_last(), a);
        if linkable(v, a, ids.last()) {
            rest.push(ids.last())
        } else {
            rest
        }
    }
}

/// Arena position of the `p`-th node that is not an output: the bias and
/// inputs first, then the hidden nodes.
pub open spec fn source_position(p: nat, n_in: u32, n_out: u32) -> nat {
    if p > n_in {
        p + (n_out as nat)
    } else {
        p
    }
}

/// Number of nodes that are not outputs.
pub open spec fn source_count(v: NetView, n_out: u32) -> nat {
    (v.ids.len() - n_out) as nat
}

/// The node that a draw `r` picks as the start of a new link.
pub open spec fn drawn_source(v: NetView, n_in: u32, n_out: u32, r: u32) -> u32 {
    v.ids[source_position((r as nat) % source_count(v, n_out), n_in, n_out) as int]
}

/// The link that draws `r_from` and `r_to` pick, if the drawn source has any
/// target.
pub open spec fn drawn_link(v: NetView, n_in: u32, n_out: u32, r_from: u32, r_to: u32) -> Option<(u32, u32)> {
    let a = drawn_source(v, n_in, n_out, r_from);
    let targets = link_targets(v, v.ids, a);
    if targets.len() == 0 {
        None
    } else {
        Some((a, targets[((r_to as nat) % targets.len()) as int]))
    }
}

proof fn lemma_link_targets_linkable(v: NetView, ids: Seq<u32>, a: u32, t: int)
    requires
        0 <= t < link_targets(v, ids, a).len(),
    ensures
        linkable(v, a, link_targets(v, ids, a)[t]),
        ids.contains(link_targets(v, ids, a)[t]),
    decreases ids.len(),
{
    let rest = link_targets(v, ids.drop_last(), a);
    if t < rest.len() {
        lemma_link_targets_linkable(v, ids.drop_last(), a, t);
        let x = rest[t];
        let k = choose|k: int| 0 <= k < ids.drop_last().len() && ids.drop_last()[k] == x;
        assert(ids[k] == x);
    } else {
        assert(ids[ids.len() - 1] == ids.last());
    }
}

/// Nodes of the compiled network keep the roles their identifiers give them,
/// and the reserved nodes sit at their own positions.
pub(crate) proof fn lemma_build_view_reserved(genes: Seq<Gene>, n_in: u32, n_out: u32)
    ensures
        build_view(genes, n_in, n_out).ids.len() >= n_in + n_out + 1,
        forall|k: int| 0 <= k <= n_in + n_out ==> build_view(genes, n_in, n_out).ids[k] == k as u32,
        forall|id: u32|
            #![trigger build_view(genes, n_in, n_out).nodes[id]]
            build_view(genes, n_in, n_out).nodes.contains_key(id) ==> build_view(genes, n_in, n_out).nodes[id].node_type
                == kind_of(id, n_in, n_out),
    decreases genes.len(),
{
    if genes.len() > 0 {
        lemma_build_view_reserved(genes.drop_last(), n_in, n_out);
    }
}

impl Network {
    /// The link that draws `r_from` and `r_to` pick: the source is the
    /// `r_from % m`-th of the `m` nodes that are not outputs, the target the
    /// `r_to % c`-th of the `c` nodes that may receive a link from it, in
    /// arena order; `None` when the source has no such node.
    pub fn pick_link(&self, r_from: u32, r_to: u32) -> (r: Option<(u32, u32)>)
        requires
            self.wf(),
            self@.ids.len() >= self.spec_n_inputs() + self.spec_n_outputs() + 1,
        ensures
            r == drawn_link(self@, self.spec_n_inputs(), self.spec_n_outputs(), r_from, r_to),
    {
        let ghost v = self.model@;
        let m: usize = self.node_ids.len() - self.n_outputs as usize;
        let p: usize = (r_from as usize) % m;
        let pos: usize = if p > self.n_inputs as usize {
            p + self.n_outputs as usize
        } else {
            p
        };
        let a = self.node_ids[pos];
        proof {
            assert(a == drawn_source(v, self.n_inputs, self.n_outputs, r_from));
            assert(v.ids.contains(a));
        }
        let a_node = &self.nodes[pos];
        let la: usize = match a_node.layer {
            Some(l) => l,
            None => 0,
        };
        let min_layer: usize = if la >= 1 {
            la
        } else {
            1
        };
        let mut targets: Vec<u32> = Vec::new();
        let mut k: usize = 0;
        while k < self.node_ids.len()
            invariant
                self.wf(),
                v == self.model@,
                0 <= k <= self.node_ids.len(),
                pos < self.node_ids.len(),
                a == self.node_ids@[pos as int],
                min_layer == min_target_layer(v, a),
                targets@ == link_targets(v, self.node_ids@.take(k as int), a),
            decreases self.node_ids.len() - k,
        {
            let b = self.node_ids[k];
            let node = &self.nodes[k];
            let lb: usize = match node.layer {
                Some(l) => l,
                None => 0,
            };
            assert(self.nodes@[k as int]@ == v.nodes[b]);
            assert(self.nodes@[pos as int]@ == v.nodes[a]);
            let mut linked = false;
            let mut s: usize = 0;
            while s < self.nodes[pos].succ.len()
                invariant
                    self.wf(),
                    v == self.model@,
                    pos < self.node_ids.len(),
                    self.nodes@[pos as int]@ == v.nodes[a],
                    0 <= s <= self.nodes@[pos as int].succ.len(),
                    linked == v.nodes[a].succ.take(s as int).contains(LinkTo { to: b }),
                decreases self.nodes@[pos as int].succ.len() - s,
            {
                if self.nodes[pos].succ[s].to == b {
                    linked = true;
                }
                proof {
                    let sq = v.nodes[a].succ;
                    let t0 = sq.take(s as int);
                    let t1 = sq.take(s + 1);
                    assert(t1 =~= t0.push(sq[s as int]));
                    assert(sq[s as int] == self.nodes@[pos as int].succ@[s as int]);
                    if sq[s as int].to == b {
                        assert(t1[s as int] == LinkTo { to: b });
                    }
                    if t0.contains(LinkTo { to: b }) {
                        let i = choose|i: int| 0 <= i < t0.len() && t0[i] == LinkTo { to: b };
                        assert(t1[i] == LinkTo { to: b });
                    }
                    if t1.contains(LinkTo { to: b }) && sq[s as int].to != b {
                        let i = choose|i: int| 0 <= i < t1.len() && t1[i] == LinkTo { to: b };
                        assert(t0[i] == LinkTo { to: b });
                    }
                }
                s = s + 1;
            }
            assert(v.nodes[a].succ.take(v.nodes[a].succ.len() as int) =~= v.nodes[a].succ);
            assert(self.node_ids@.take(k + 1).drop_last() =~= self.node_ids@.take(k as int));
            if lb >= min_layer && !linked && a != b {
                targets.push(b);
            }
            k = k + 1;
        }
        assert(self.node_ids@.take(self.node_ids.len() as int) =~= self.node_ids@);
        if targets.len() == 0 {
            None
        } else {
            let t = (r_to as usize) % targets.len();
            Some((a, targets[t]))
        }
    }
}

} // verus!

verus! {

/// A proposed new link `a -> b` that keeps the network feed-forward: both
/// nodes exist, `a` is not an output, `b` is not on an earlier layer than `a`,
/// the link does not exist yet, and `a` and `b` differ.
pub open spec fn valid_new_link(v: NetView, a: u32, b: u32) -> bool {
    &&& v.nodes.contains_key(a)
    &&& v.nodes.contains_key(b)
    &&& v.nodes[a].node_type != NodeType::OUTPUT
    &&& layer_value(v, b) >= layer_value(v, a)
    &&& !v.nodes[a].succ.contains(LinkTo { to: b })
    &&& a != b
}

/// Whatever the draws, a drawn link is a valid new link.
pub(crate) proof fn lemma_drawn_link_valid(net: &Network, genes: Seq<Gene>, r_from: u32, r_to: u32)
    requires
        net.wf(),
        same_shape(net@, build_view(genes, net.spec_n_inputs(), net.spec_n_outputs())),
    ensures
        net@.ids.len() >= net.spec_n_inputs() + net.spec_n_outputs() + 1,
        drawn_link(net@, net.spec_n_inputs(), net.spec_n_outputs(), r_from, r_to) matches Some((a, b))
            ==> valid_new_link(net@, a, b),
{
    let v = net@;
    let n_in = net.spec_n_inputs();
    let n_out = net.spec_n_outputs();
    let bv = build_view(genes, n_in, n_out);
    lemma_build_view_reserved(genes, n_in, n_out);
    if let Some((a, b)) = drawn_link(v, n_in, n_out, r_from, r_to) {
        let targets = link_targets(v, v.ids, a);
        let t = ((r_to as nat) % targets.len()) as int;
        lemma_link_targets_linkable(v, v.ids, a, t);
        let p = (r_from as nat) % source_count(v, n_out);
        let pos = source_position(p, n_in, n_out) as int;
        assert(v.ids.contains(a)) by {
            assert(v.ids[pos] == a);
        }
        assert(v.nodes.contains_key(a));
        assert(v.nodes[a].node_type == bv.nodes[a].node_type);
        if p <= n_in {
            assert(v.ids[pos] == pos as u32);
        } else {
            if a <= n_in + n_out {
                assert(v.ids[a as int] == a);
                assert(v.ids[pos] == v.ids[a as int]);
            }
        }
    }
}

} // verus!

verus! {

impl Network {
    /// Compiles `genome` with the given numbers of inputs and outputs.
    /// Fails exactly when its enabled genes form a cycle.
    pub fn new(genome: &Genome, n_inputs: u32, n_outputs: u32) -> (r: Result<Network, NeatError>)
        requires
            n_inputs + n_outputs < u32::MAX,
        ensures
            r is Ok <==> acyclic(build_view(genome@.genes, n_inputs, n_outputs)),
            r is Err ==> r == Err::<Network, NeatError>(NeatError::InvalidTopology),
            r matches Ok(net) ==> net.wf() && same_shape(net@, build_view(genome@.genes, n_inputs, n_outputs))
                && net.spec_n_inputs() == n_inputs && net.spec_n_outputs() == n_outputs,
    {
        Network::from_genes(genome.genes(), n_inputs, n_outputs)
    }

    pub fn n_inputs(&self) -> (r: u32)
        ensures
            r == self.spec_n_inputs(),
    {
        self.n_inputs
    }

    pub fn n_outputs(&self) -> (r: u32)
        ensures
            r == self.spec_n_outputs(),
    {
        self.n_outputs
    }

    /// Checks that `count` input values fit the network: one per input node.
    pub fn check_inputs(&self, count: usize) -> (r: Result<(), NeatError>)
        ensures
            r is Ok <==> count == self.spec_n_inputs(),
            r is Err ==> r == Err::<(), NeatError>(NeatError::DimensionMismatch),
    {
        if count == self.n_inputs as usize {
            Ok(())
        } else {
            Err(NeatError::DimensionMismatch)
        }
    }
}

} // verus!
