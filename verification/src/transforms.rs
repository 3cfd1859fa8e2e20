//! Rewrites of the query graph: groups of generated fragments found equal,
//! each to be merged into the first fragment of its group, and the pruning
//! of leaf fields that nothing selects any more.

use vstd::prelude::*;
use petgraph::stable_graph::{EdgeIndex, NodeIndex};
use crate::document::Schema;
use crate::executable::{FragmentDefinition, OperationDefinition};
use crate::fragment_structs::{
    edge_at, find_spread_target, is_typed_fragment, ordered_selections, selection_at, selection_before,
    selection_order, spread_target,
};
use crate::graph::fragments::{first_type_name, GraphFragment};
use crate::graph::query_graph::{
    add_edge, contains_node, copy_edge, edge_number, graph_edges, graph_nodes, has_incoming_edge, incoming_edges,
    incoming_order, incoming_sources, node_index, node_indices, node_number, node_weight, outgoing_edges,
    outgoing_order, remove_edge, remove_node, Edge, Node, QueryGraph,
};
use crate::text::str_eq;

verus! {

/// Groups of equal fragments, by node: each group has the node the others
/// merge into, and the nodes that merge into it, in the order found.
pub struct Merges {
    groups: Vec<(usize, Vec<usize>)>,
}

/// Whether `node` belongs to the group `g`: as its target or as one of its
/// sources.
pub open spec fn in_group(g: (usize, Seq<usize>), node: usize) -> bool {
    g.0 == node || g.1.contains(node)
}

/// The position of the first group that `node` belongs to.
pub open spec fn first_group_of(groups: Seq<(usize, Seq<usize>)>, node: usize) -> Option<int> {
    if exists|k: int| 0 <= k < groups.len() && in_group(#[trigger] groups[k], node) {
        Some(
            choose|k: int|
                0 <= k < groups.len() && in_group(#[trigger] groups[k], node) && forall|j: int|
                    0 <= j < k ==> !in_group(#[trigger] groups[j], node),
        )
    } else {
        None
    }
}

proof fn lemma_minimal_group(groups: Seq<(usize, Seq<usize>)>, node: usize, k0: int)
    requires
        0 <= k0 < groups.len(),
        in_group(groups[k0], node),
    ensures
        exists|k: int|
            0 <= k < groups.len() && in_group(#[trigger] groups[k], node) && forall|j: int|
                0 <= j < k ==> !in_group(#[trigger] groups[j], node),
    decreases k0,
{
    if exists|j: int| 0 <= j < k0 && in_group(#[trigger] groups[j], node) {
        let j = choose|j: int| 0 <= j < k0 && in_group(#[trigger] groups[j], node);
        lemma_minimal_group(groups, node, j);
    } else {
        assert(forall|j: int| 0 <= j < k0 ==> !in_group(#[trigger] groups[j], node));
    }
}

/// The first group that `node` belongs to is a group it belongs to, and it
/// belongs to none before it; when there is none, it belongs to no group.
proof fn lemma_first_group_of(groups: Seq<(usize, Seq<usize>)>, node: usize)
    ensures
        match first_group_of(groups, node) {
            Some(k) => 0 <= k < groups.len() && in_group(groups[k], node) && forall|j: int|
                0 <= j < k ==> !in_group(#[trigger] groups[j], node),
            None => forall|k: int| 0 <= k < groups.len() ==> !in_group(#[trigger] groups[k], node),
        },
{
    if exists|k: int| 0 <= k < groups.len() && in_group(#[trigger] groups[k], node) {
        let k0 = choose|k: int| 0 <= k < groups.len() && in_group(#[trigger] groups[k], node);
        lemma_minimal_group(groups, node, k0);
    }
}

impl Merges {
    /// The groups, each as its target and its sources.
    pub closed spec fn spec_groups(&self) -> Seq<(usize, Seq<usize>)> {
        self.groups@.map_values(|g: (usize, Vec<usize>)| (g.0, g.1@))
    }

    /// No groups.
    pub fn new() -> (r: Merges)
        ensures
            r.spec_groups() == Seq::<(usize, Seq<usize>)>::empty(),
    {
        Merges { groups: Vec::new() }
    }

    /// Whether no fragments were found equal.
    pub fn is_empty(&self) -> (r: bool)
        ensures
            r == (self.spec_groups().len() == 0),
    {
        self.groups.len() == 0
    }

    /// The groups, each as its target and its sources.
    pub fn groups(&self) -> (r: &Vec<(usize, Vec<usize>)>)
        ensures
            r@.map_values(|g: (usize, Vec<usize>)| (g.0, g.1@)) == self.spec_groups(),
    {
        &self.groups
    }

    /// Records that `right` equals `left`: `right` joins the first group that
    /// `left` belongs to, or, when `left` belongs to none, a new group with
    /// `left` as its target.
    #[verifier::spinoff_prover]
    #[verifier::rlimit(30)]
    pub fn add(&mut self, left: usize, right: usize)
        ensures
            match first_group_of(old(self).spec_groups(), left) {
                Some(k) => final(self).spec_groups() == old(self).spec_groups().update(
                    k,
                    (old(self).spec_groups()[k].0, old(self).spec_groups()[k].1.push(right)),
                ),
                None => final(self).spec_groups() == old(self).spec_groups().push((left, seq![right])),
            },
    {
        let ghost before = self.spec_groups();
        let mut k: usize = 0;
        while k < self.groups.len()
            invariant
                k <= self.groups@.len(),
                self.spec_groups() == before,
                before == old(self).spec_groups(),
                forall|j: int| 0 <= j < k ==> !in_group(#[trigger] before[j], left),
            decreases self.groups.len() - k,
        {
            let found = self.groups[k].0 == left || contains(&self.groups[k].1, left);
            proof {
                assert(before[k as int] == (self.groups@[k as int].0, self.groups@[k as int].1@));
            }
            if found {
                proof {
                    assert(in_group(before[k as int], left));
                    let p = first_group_of(before, left);
                    assert(p is Some);
                    let q = p->0;
                    assert(q == k) by {
                        if q < k {
                            assert(!in_group(before[q], left));
                        } else if q > k {
                            assert(!in_group(before[k as int], left));
                        }
                    }
                }
                let mut g = self.groups.remove(k);
                g.1.push(right);
                self.groups.insert(k, g);
                proof {
                    assert(self.spec_groups() =~= before.update(
                        k as int,
                        (before[k as int].0, before[k as int].1.push(right)),
                    ));
                }
                return;
            }
            k = k + 1;
        }
        let mut sources: Vec<usize> = Vec::new();
        sources.push(right);
        self.groups.push((left, sources));
        proof {
            assert(first_group_of(before, left) is None);
            assert(self.spec_groups() =~= before.push((left, seq![right])));
        }
    }
}

/// Whether `v` holds `x`.
fn contains(v: &Vec<usize>, x: usize) -> (r: bool)
    ensures
        r == v@.contains(x),
{
    let mut i: usize = 0;
    while i < v.len()
        invariant
            i <= v@.len(),
            forall|j: int| 0 <= j < i ==> v@[j] != x,
        decreases v.len() - i,
    {
        if v[i] == x {
            assert(v@[i as int] == x);
            return true;
        }
        i = i + 1;
    }
    false
}

/// After `right` is recorded as equal to `left`, some group holds both, and
/// every node that belonged to a group still belongs to that group.
pub proof fn law_add_joins_left_and_right(before: Seq<(usize, Seq<usize>)>, after: Seq<(usize, Seq<usize>)>, left: usize, right: usize)
    requires
        match first_group_of(before, left) {
            Some(k) => after == before.update(k, (before[k].0, before[k].1.push(right))),
            None => after == before.push((left, seq![right])),
        },
    ensures
        exists|k: int| 0 <= k < after.len() && in_group(#[trigger] after[k], left) && in_group(after[k], right),
        forall|k: int, n: usize| 0 <= k < before.len() && #[trigger] in_group(before[k], n) ==> in_group(after[k], n),
{
    lemma_first_group_of(before, left);
    match first_group_of(before, left) {
        Some(k) => {
            assert(in_group(before[k], left));
            assert(after[k].1 == before[k].1.push(right));
            assert(after[k].1[after[k].1.len() - 1] == right);
            assert(in_group(after[k], left)) by {
                if before[k].0 != left {
                    let i = choose|i: int| 0 <= i < before[k].1.len() && before[k].1[i] == left;
                    assert(after[k].1[i] == left);
                }
            }
            assert(in_group(after[k], right));
            assert forall|j: int, n: usize| 0 <= j < before.len() && #[trigger] in_group(before[j], n) implies in_group(after[j], n) by {
                if j == k && before[j].0 != n {
                    let i = choose|i: int| 0 <= i < before[j].1.len() && before[j].1[i] == n;
                    assert(after[j].1[i] == n);
                }
            }
        },
        None => {
            let k = before.len() as int;
            assert(after[k] == (left, seq![right]));
            assert(seq![right][0] == right);
            assert(in_group(after[k], right));
            assert(in_group(after[k], left));
        },
    }
}

/// A leaf field node of the graph that no edge leads to.
pub open spec fn is_unused_leaf(nodes: Map<int, Node>, edges: Map<int, (int, int, Edge)>, n: int) -> bool {
    &&& nodes.dom().contains(n)
    &&& nodes[n] == Node::LeafField
    &&& !exists|k: int| #[trigger] edges.dom().contains(k) && edges[k].1 == n
}

/// The leaf field nodes of `g` that no edge leads to, in increasing order.
fn unused_leaves(g: &QueryGraph) -> (r: Vec<NodeIndex<usize>>)
    ensures
        forall|n: int|
            is_unused_leaf(graph_nodes(*g), graph_edges(*g), n) <==> exists|j: int|
                0 <= j < r@.len() && #[trigger] node_number(r@[j]) == n,
        forall|i: int, j: int| 0 <= i < j < r@.len() ==> node_number(#[trigger] r@[i]) != node_number(#[trigger] r@[j]),
{
    let all = node_indices(g);
    let mut r: Vec<NodeIndex<usize>> = Vec::new();
    let mut i: usize = 0;
    while i < all.len()
        invariant
            i <= all@.len(),
            forall|j: int| 0 <= j < all@.len() ==> graph_nodes(*g).dom().contains(#[trigger] node_number(all@[j])),
            forall|a: int, b: int| 0 <= a < b < all@.len() ==> node_number(#[trigger] all@[a]) < node_number(#[trigger] all@[b]),
            forall|j: int| 0 <= j < r@.len() ==> is_unused_leaf(graph_nodes(*g), graph_edges(*g), #[trigger] node_number(r@[j])),
            forall|j: int|
                0 <= j < i && is_unused_leaf(graph_nodes(*g), graph_edges(*g), #[trigger] node_number(all@[j])) ==> exists|m: int|
                    0 <= m < r@.len() && node_number(r@[m]) == node_number(all@[j]),
            forall|j: int| 0 <= j < r@.len() ==> exists|m: int| 0 <= m < i && #[trigger] node_number(r@[j]) == node_number(all@[m]),
            forall|a: int, b: int| 0 <= a < b < r@.len() ==> node_number(#[trigger] r@[a]) < node_number(#[trigger] r@[b]),
        decreases all.len() - i,
    {
        let n = all[i];
        let w = node_weight(g, n);
        let leaf = match w {
            Node::LeafField => true,
            _ => false,
        };
        let ghost r0 = r@;
        if leaf && !has_incoming_edge(g, n) {
            let ghost before = r@;
            r.push(n);
            proof {
                let last = r@.len() - 1;
                assert(node_number(r@[last]) == node_number(all@[i as int]));
                assert forall|a: int, b: int| 0 <= a < b < r@.len() implies node_number(#[trigger] r@[a]) < node_number(#[trigger] r@[b]) by {
                    if b == last {
                        assert(r@[a] == before[a]);
                        let m = choose|m: int| 0 <= m < i && #[trigger] node_number(before[a]) == node_number(all@[m]);
                        assert(node_number(all@[m]) < node_number(all@[i as int]));
                    } else {
                        assert(r@[a] == before[a] && r@[b] == before[b]);
                    }
                }
                assert forall|j: int| 0 <= j < r@.len() implies exists|m: int| 0 <= m < i + 1 && #[trigger] node_number(r@[j]) == node_number(all@[m]) by {
                    if j < last {
                        assert(r@[j] == before[j]);
                        let m = choose|m: int| 0 <= m < i && #[trigger] node_number(before[j]) == node_number(all@[m]);
                        assert(node_number(r@[j]) == node_number(all@[m]));
                    } else {
                        assert(node_number(r@[j]) == node_number(all@[i as int]));
                    }
                }
            }
        }
        proof {
            assert forall|j: int|
                0 <= j < i + 1 && is_unused_leaf(graph_nodes(*g), graph_edges(*g), #[trigger] node_number(all@[j])) implies exists|m: int|
                    0 <= m < r@.len() && node_number(r@[m]) == node_number(all@[j]) by {
                if j < i {
                    let m = choose|m: int| 0 <= m < r0.len() && node_number(r0[m]) == node_number(all@[j]);
                    assert(r@[m] == r0[m]);
                } else {
                    assert(node_number(r@[r@.len() - 1]) == node_number(all@[i as int]));
                }
            }
        }
        i = i + 1;
    }
    proof {
        assert forall|n: int| is_unused_leaf(graph_nodes(*g), graph_edges(*g), n) implies exists|j: int|
            0 <= j < r@.len() && #[trigger] node_number(r@[j]) == n by {
            let j = choose|j: int| 0 <= j < all@.len() && node_number(all@[j]) == n;
            assert(is_unused_leaf(graph_nodes(*g), graph_edges(*g), node_number(all@[j])));
        }
    }
    r
}

/// Removes the leaf field nodes that no edge leads to, with the edges from
/// them: afterwards the graph holds the nodes that were not such leaves,
/// and the edges between them, each under its old number and weight.
pub fn prune_unused_leaves(g: &mut QueryGraph)
    ensures
        forall|n: int|
            #[trigger] graph_nodes(*final(g)).dom().contains(n) <==> (graph_nodes(*old(g)).dom().contains(n)
                && !is_unused_leaf(graph_nodes(*old(g)), graph_edges(*old(g)), n)),
        forall|n: int| #[trigger] graph_nodes(*final(g)).dom().contains(n) ==> graph_nodes(*final(g))[n] == graph_nodes(*old(g))[n],
        forall|k: int|
            #[trigger] graph_edges(*final(g)).dom().contains(k) <==> (graph_edges(*old(g)).dom().contains(k)
                && !is_unused_leaf(graph_nodes(*old(g)), graph_edges(*old(g)), graph_edges(*old(g))[k].0)
                && !is_unused_leaf(graph_nodes(*old(g)), graph_edges(*old(g)), graph_edges(*old(g))[k].1)),
        forall|k: int| #[trigger] graph_edges(*final(g)).dom().contains(k) ==> graph_edges(*final(g))[k] == graph_edges(*old(g))[k],
{
    let ghost nodes0 = graph_nodes(*g);
    let ghost edges0 = graph_edges(*g);
    let to_delete = unused_leaves(g);
    let mut i: usize = 0;
    while i < to_delete.len()
        invariant
            i <= to_delete@.len(),
            nodes0 == graph_nodes(*old(g)),
            edges0 == graph_edges(*old(g)),
            forall|n: int|
                is_unused_leaf(nodes0, edges0, n) <==> exists|j: int| 0 <= j < to_delete@.len() && #[trigger] node_number(to_delete@[j]) == n,
            forall|n: int|
                #[trigger] graph_nodes(*g).dom().contains(n) <==> (nodes0.dom().contains(n) && !exists|j: int|
                    0 <= j < i && #[trigger] node_number(to_delete@[j]) == n),
            forall|n: int| #[trigger] graph_nodes(*g).dom().contains(n) ==> graph_nodes(*g)[n] == nodes0[n],
            forall|k: int|
                #[trigger] graph_edges(*g).dom().contains(k) <==> (edges0.dom().contains(k) && !exists|j: int|
                    0 <= j < i && (#[trigger] node_number(to_delete@[j]) == edges0[k].0 || node_number(to_delete@[j]) == edges0[k].1)),
            forall|k: int| #[trigger] graph_edges(*g).dom().contains(k) ==> graph_edges(*g)[k] == edges0[k],
        decreases to_delete.len() - i,
    {
        let ghost before_edges = graph_edges(*g);
        remove_node(g, to_delete[i]);
        proof {
            let d = node_number(to_delete@[i as int]);
            assert forall|n: int| #[trigger] graph_nodes(*g).dom().contains(n) <==> (nodes0.dom().contains(n) && !exists|j: int|
                0 <= j < i + 1 && #[trigger] node_number(to_delete@[j]) == n) by {
                if exists|j: int| 0 <= j < i + 1 && #[trigger] node_number(to_delete@[j]) == n {
                    let j = choose|j: int| 0 <= j < i + 1 && #[trigger] node_number(to_delete@[j]) == n;
                    if j < i {
                    } else {
                    }
                }
            }
            assert forall|k: int| #[trigger] graph_edges(*g).dom().contains(k) <==> (edges0.dom().contains(k) && !exists|j: int|
                0 <= j < i + 1 && (#[trigger] node_number(to_delete@[j]) == edges0[k].0 || node_number(to_delete@[j]) == edges0[k].1)) by {
                if graph_edges(*g).dom().contains(k) {
                    assert(before_edges.dom().contains(k));
                    assert(before_edges[k] == edges0[k]);
                }
                if edges0.dom().contains(k) && !exists|j: int|
                    0 <= j < i + 1 && (#[trigger] node_number(to_delete@[j]) == edges0[k].0 || node_number(to_delete@[j]) == edges0[k].1) {
                    assert(before_edges.dom().contains(k));
                }
            }
        }
        i = i + 1;
    }
}

/// `e1` is `e0` with, for each edge `ks[i]` of `e0`, one more edge under
/// a new number from that edge's source to `to`, with that edge's weight.
pub open spec fn copies_added(
    e0: Map<int, (int, int, Edge)>,
    e1: Map<int, (int, int, Edge)>,
    ks: Seq<int>,
    to: int,
) -> bool {
    exists|fresh: Seq<int>|
        {
            &&& fresh.len() == ks.len()
            &&& forall|i: int| 0 <= i < fresh.len() ==> !e0.dom().contains(#[trigger] fresh[i])
            &&& forall|i: int, j: int| 0 <= i < j < fresh.len() ==> #[trigger] fresh[i] != #[trigger] fresh[j]
            &&& forall|k: int|
                #[trigger] e1.dom().contains(k) <==> (e0.dom().contains(k) || exists|i: int|
                    0 <= i < fresh.len() && fresh[i] == k)
            &&& forall|k: int| #[trigger] e0.dom().contains(k) ==> e1[k] == e0[k]
            &&& forall|i: int| 0 <= i < fresh.len() ==> #[trigger] e1[fresh[i]] == (e0[ks[i]].0, to, e0[ks[i]].2)
        }
}

/// The edges among `order` that get copied: every one, or only the field
/// edges when `fields_only` holds; in order.
pub open spec fn copied_edges(edges: Map<int, (int, int, Edge)>, order: Seq<int>, fields_only: bool) -> Seq<int>
    decreases order.len(),
{
    if order.len() == 0 {
        seq![]
    } else {
        let init = copied_edges(edges, order.drop_last(), fields_only);
        if !fields_only || edges[order.last()].2 is HasField {
            init.push(order.last())
        } else {
            init
        }
    }
}

proof fn lemma_copied_edges_all(edges: Map<int, (int, int, Edge)>, order: Seq<int>)
    ensures
        copied_edges(edges, order, false) == order,
    decreases order.len(),
{
    if order.len() > 0 {
        lemma_copied_edges_all(edges, order.drop_last());
        assert(order.drop_last().push(order.last()) == order);
    }
}

/// Adds, for each edge into `from` (each field edge, when `fields_only`
/// holds), an edge from its source to `to` with its weight, in the order
/// the graph lists the edges into `from`; gives the indices of the edges
/// copied.
fn copy_incoming(g: &mut QueryGraph, from: NodeIndex<usize>, to: NodeIndex<usize>, fields_only: bool) -> (r: Vec<EdgeIndex<usize>>)
    requires
        graph_nodes(*old(g)).dom().contains(node_number(to)),
    ensures
        graph_nodes(*final(g)) == graph_nodes(*old(g)),
        copies_added(
            graph_edges(*old(g)),
            graph_edges(*final(g)),
            copied_edges(graph_edges(*old(g)), incoming_order(*old(g), node_number(from)), fields_only),
            node_number(to),
        ),
        r@.len() == copied_edges(graph_edges(*old(g)), incoming_order(*old(g), node_number(from)), fields_only).len(),
        forall|i: int|
            0 <= i < r@.len() ==> edge_number(#[trigger] r@[i]) == copied_edges(
                graph_edges(*old(g)),
                incoming_order(*old(g), node_number(from)),
                fields_only,
            )[i],
{
    let ghost e0 = graph_edges(*g);
    let ghost order = incoming_order(*g, node_number(from));
    let ghost ks = copied_edges(e0, order, fields_only);
    let mut copies: Vec<(NodeIndex<usize>, Edge)> = Vec::new();
    let mut ids: Vec<EdgeIndex<usize>> = Vec::new();
    {
        let inc = incoming_edges(g, from);
        let mut j: usize = 0;
        while j < inc.len()
            invariant
                j <= inc@.len(),
                inc@.len() == order.len(),
                e0 == graph_edges(*g),
                order == incoming_order(*g, node_number(from)),
                forall|m: int|
                    0 <= m < inc@.len() ==> {
                        &&& graph_nodes(*g).dom().contains(node_number((#[trigger] inc@[m]).1))
                        &&& node_number(inc@[m].1) == e0[order[m]].0
                        &&& *inc@[m].2 == e0[order[m]].2
                        &&& edge_number(inc@[m].0) == order[m]
                    },
                copies@.len() == copied_edges(e0, order.take(j as int), fields_only).len(),
                ids@.len() == copies@.len(),
                forall|m: int|
                    0 <= m < copies@.len() ==> {
                        let k = copied_edges(e0, order.take(j as int), fields_only)[m];
                        &&& node_number((#[trigger] copies@[m]).0) == e0[k].0
                        &&& copies@[m].1 == e0[k].2
                        &&& graph_nodes(*g).dom().contains(node_number(copies@[m].0))
                        &&& edge_number(ids@[m]) == k
                    },
            decreases inc.len() - j,
        {
            let (id, src, w) = inc[j];
            assert(order.take(j + 1).drop_last() == order.take(j as int));
            assert(order.take(j + 1).last() == order[j as int]);
            let keep = if fields_only {
                match w {
                    Edge::HasField { .. } => true,
                    _ => false,
                }
            } else {
                true
            };
            if keep {
                copies.push((src, copy_edge(w)));
                ids.push(id);
            }
            j = j + 1;
        }
        assert(order.take(order.len() as int) == order);
        assert forall|m: int| 0 <= m < ids@.len() implies edge_number(#[trigger] ids@[m]) == ks[m] by {
            assert(graph_nodes(*g).dom().contains(node_number(copies@[m].0)));
        }
    }
    let ghost n0 = graph_nodes(*g);
    let ghost mut fresh: Seq<int> = Seq::empty();
    let mut j: usize = 0;
    while j < copies.len()
        invariant
            j <= copies@.len(),
            copies@.len() == ks.len(),
            ids@.len() == ks.len(),
            forall|m: int| 0 <= m < ids@.len() ==> edge_number(#[trigger] ids@[m]) == ks[m],
            graph_nodes(*g) == n0,
            n0.dom().contains(node_number(to)),
            forall|m: int|
                0 <= m < copies@.len() ==> node_number((#[trigger] copies@[m]).0) == e0[ks[m]].0 && copies@[m].1 == e0[ks[m]].2
                    && n0.dom().contains(node_number(copies@[m].0)),
            fresh.len() == j,
            forall|i: int| 0 <= i < fresh.len() ==> !e0.dom().contains(#[trigger] fresh[i]),
            forall|i: int, k: int| 0 <= i < k < fresh.len() ==> #[trigger] fresh[i] != #[trigger] fresh[k],
            forall|k: int|
                #[trigger] graph_edges(*g).dom().contains(k) <==> (e0.dom().contains(k) || exists|i: int|
                    0 <= i < fresh.len() && fresh[i] == k),
            forall|k: int| #[trigger] e0.dom().contains(k) ==> graph_edges(*g)[k] == e0[k],
            forall|i: int| 0 <= i < fresh.len() ==> #[trigger] graph_edges(*g)[fresh[i]] == (e0[ks[i]].0, node_number(to), e0[ks[i]].2),
        decreases copies.len() - j,
    {
        let src = copies[j].0;
        let w = copy_edge(&copies[j].1);
        let ghost before = graph_edges(*g);
        add_edge(g, src, to, w);
        proof {
            let k = choose|k: int|
                !before.dom().contains(k) && graph_edges(*g) == before.insert(k, (node_number(src), node_number(to), w));
            let old_fresh = fresh;
            fresh = fresh.push(k);
            assert forall|i: int| 0 <= i < fresh.len() implies !e0.dom().contains(#[trigger] fresh[i]) by {
                if i < old_fresh.len() {
                    assert(fresh[i] == old_fresh[i]);
                }
            }
            assert forall|i: int, m: int| 0 <= i < m < fresh.len() implies #[trigger] fresh[i] != #[trigger] fresh[m] by {
                if m == old_fresh.len() {
                    assert(before.dom().contains(old_fresh[i]));
                } else {
                    assert(fresh[i] == old_fresh[i] && fresh[m] == old_fresh[m]);
                }
            }
            assert forall|kk: int|
                #[trigger] graph_edges(*g).dom().contains(kk) <==> (e0.dom().contains(kk) || exists|i: int|
                    0 <= i < fresh.len() && fresh[i] == kk) by {
                if kk == k {
                    assert(fresh[old_fresh.len() as int] == kk);
                }
                assert(before.dom().contains(kk) <==> (e0.dom().contains(kk) || exists|i: int|
                    0 <= i < old_fresh.len() && old_fresh[i] == kk));
                if exists|i: int| 0 <= i < old_fresh.len() && old_fresh[i] == kk {
                    let i = choose|i: int| 0 <= i < old_fresh.len() && old_fresh[i] == kk;
                    assert(fresh[i] == kk);
                }
                if exists|i: int| 0 <= i < fresh.len() && fresh[i] == kk {
                    let i = choose|i: int| 0 <= i < fresh.len() && fresh[i] == kk;
                    if i < old_fresh.len() {
                        assert(old_fresh[i] == kk);
                    }
                }
            }
            assert forall|i: int| 0 <= i < fresh.len() implies #[trigger] graph_edges(*g)[fresh[i]] == (
                e0[ks[i]].0,
                node_number(to),
                e0[ks[i]].2,
            ) by {
                if i < old_fresh.len() {
                    assert(fresh[i] == old_fresh[i]);
                    assert(before.dom().contains(old_fresh[i]));
                }
            }
        }
        j = j + 1;
    }
    ids
}

/// `g1` is `g0` after the fragment at node `source` was merged into the one
/// at node `target`: each edge into `source` copied to end at `target`,
/// then `source` gone with the edges at it.
pub open spec fn merged(g0: QueryGraph, g1: QueryGraph, target: usize, source: usize) -> bool {
    &&& graph_nodes(g1) == graph_nodes(g0).remove(source as int)
    &&& exists|mid: Map<int, (int, int, Edge)>|
        {
            &&& copies_added(graph_edges(g0), mid, incoming_order(g0, source as int), target as int)
            &&& forall|k: int|
                #[trigger] graph_edges(g1).dom().contains(k) <==> (mid.dom().contains(k) && mid[k].0 != source
                    && mid[k].1 != source)
            &&& forall|k: int| #[trigger] graph_edges(g1).dom().contains(k) ==> graph_edges(g1)[k] == mid[k]
        }
}

/// Merges the fragment at node `source` into the one at node `target`:
/// each edge into `source` is copied to end at `target` instead, then
/// `source` leaves the graph with the edges at it.
pub fn merge_into(g: &mut QueryGraph, target: usize, source: usize)
    requires
        graph_nodes(*old(g)).dom().contains(target as int),
    ensures
        merged(*old(g), *final(g), target, source),
{
    let s = node_index(source);
    let t = node_index(target);
    proof {
        lemma_copied_edges_all(graph_edges(*g), incoming_order(*g, source as int));
    }
    copy_incoming(g, s, t, false);
    let ghost mid = graph_edges(*g);
    remove_node(g, s);
    assert(copies_added(graph_edges(*old(g)), mid, incoming_order(*old(g), source as int), target as int));
}

/// The merges that `groups` make, in order: for each group, its target
/// with each of its sources in turn.
pub open spec fn merge_pairs(groups: Seq<(usize, Seq<usize>)>) -> Seq<(usize, usize)>
    decreases groups.len(),
{
    if groups.len() == 0 {
        seq![]
    } else {
        merge_pairs(groups.drop_last()) + groups.last().1.map_values(|s: usize| (groups.last().0, s))
    }
}

/// The merges of `merges`, in order.
fn merge_list(merges: &Merges) -> (r: Vec<(usize, usize)>)
    ensures
        r@ == merge_pairs(merges.spec_groups()),
{
    let groups = merges.groups();
    let ghost gs = merges.spec_groups();
    let mut r: Vec<(usize, usize)> = Vec::new();
    let mut i: usize = 0;
    while i < groups.len()
        invariant
            i <= groups@.len(),
            gs == merges.spec_groups(),
            gs.len() == groups@.len(),
            forall|m: int| 0 <= m < groups@.len() ==> (#[trigger] gs[m]) == (groups@[m].0, groups@[m].1@),
            r@ == merge_pairs(gs.take(i as int)),
        decreases groups.len() - i,
    {
        let target = groups[i].0;
        let sources = &groups[i].1;
        let ghost start = r@;
        let mut j: usize = 0;
        while j < sources.len()
            invariant
                j <= sources@.len(),
                r@ == start + sources@.take(j as int).map_values(|s: usize| (target, s)),
            decreases sources.len() - j,
        {
            r.push((target, sources[j]));
            j = j + 1;
            assert(sources@.take(j as int).map_values(|s: usize| (target, s)) == sources@.take(j - 1).map_values(
                |s: usize| (target, s),
            ).push((target, sources@[j - 1])));
        }
        proof {
            assert(sources@.take(sources@.len() as int) == sources@);
            assert(gs.take(i + 1).drop_last() == gs.take(i as int));
            assert(gs.take(i + 1).last() == gs[i as int]);
            assert(gs[i as int] == (target, sources@));
        }
        i = i + 1;
    }
    assert(gs.take(gs.len() as int) == gs);
    r
}

/// Merges each group's sources into its target, group by group: the
/// graph passes through one state per merge, each made by `merged` from
/// the one before.
pub fn apply_merges(g: &mut QueryGraph, merges: &Merges)
    requires
        forall|i: int|
            0 <= i < merge_pairs(merges.spec_groups()).len() ==> graph_nodes(*old(g)).dom().contains(
                (#[trigger] merge_pairs(merges.spec_groups())[i]).0 as int,
            ) && forall|j: int|
                0 <= j <= i ==> merge_pairs(merges.spec_groups())[j].1 != merge_pairs(merges.spec_groups())[i].0,
    ensures
        exists|states: Seq<QueryGraph>|
            {
                &&& states.len() == merge_pairs(merges.spec_groups()).len() + 1
                &&& states[0] == *old(g)
                &&& states.last() == *final(g)
                &&& forall|i: int|
                    0 <= i < merge_pairs(merges.spec_groups()).len() ==> merged(
                        #[trigger] states[i],
                        states[i + 1],
                        merge_pairs(merges.spec_groups())[i].0,
                        merge_pairs(merges.spec_groups())[i].1,
                    )
            },
{
    let pairs = merge_list(merges);
    let ghost ps = pairs@;
    let ghost n0 = graph_nodes(*g);
    let ghost mut states: Seq<QueryGraph> = seq![*g];
    let mut i: usize = 0;
    while i < pairs.len()
        invariant
            i <= pairs@.len(),
            ps == pairs@,
            ps == merge_pairs(merges.spec_groups()),
            n0 == graph_nodes(*old(g)),
            forall|m: int|
                0 <= m < ps.len() ==> n0.dom().contains((#[trigger] ps[m]).0 as int) && forall|j: int|
                    0 <= j <= m ==> ps[j].1 != ps[m].0,
            forall|x: int| #[trigger] graph_nodes(*g).dom().contains(x) <==> (n0.dom().contains(x) && forall|j: int|
                0 <= j < i ==> ps[j].1 as int != x),
            states.len() == i + 1,
            states[0] == *old(g),
            states.last() == *g,
            forall|m: int| 0 <= m < i ==> merged(#[trigger] states[m], states[m + 1], ps[m].0, ps[m].1),
        decreases pairs.len() - i,
    {
        let (target, source) = pairs[i];
        assert(ps[i as int] == (target, source));
        assert(n0.dom().contains(target as int));
        assert(graph_nodes(*g).dom().contains(target as int)) by {
            assert forall|j: int| 0 <= j < i implies ps[j].1 as int != target as int by {
                assert(ps[j].1 != ps[i as int].0);
            }
        }
        let ghost before = states;
        merge_into(g, target, source);
        proof {
            states = states.push(*g);
            assert forall|m: int| 0 <= m < i + 1 implies merged(#[trigger] states[m], states[m + 1], ps[m].0, ps[m].1) by {
                if m < i {
                    assert(states[m] == before[m] && states[m + 1] == before[m + 1]);
                } else {
                    assert(states[m] == before.last());
                }
            }
        }
        i = i + 1;
    }
}

/// The position, among the edges from `n`, of the one selection of `n`,
/// when it has exactly one.
pub open spec fn sole_selection(g: QueryGraph, n: int) -> Option<int> {
    let len = outgoing_order(g, n).len();
    if exists|p: int|
        0 <= p < len && #[trigger] selection_at(g, n, p) is Some && forall|p2: int|
            0 <= p2 < len && p2 != p ==> #[trigger] selection_at(g, n, p2) is None {
        Some(
            choose|p: int|
                0 <= p < len && #[trigger] selection_at(g, n, p) is Some && forall|p2: int|
                    0 <= p2 < len && p2 != p ==> #[trigger] selection_at(g, n, p2) is None,
        )
    } else {
        None
    }
}

/// The fragment that the query fragment at `n` can be replaced by: when
/// its only selection is a spread of a fragment of the same type, that
/// fragment.
pub open spec fn lift_target(g: QueryGraph, schema: Schema, n: int) -> Option<int> {
    if graph_nodes(g).dom().contains(n) && graph_nodes(g)[n] == Node::QueryFragment {
        match sole_selection(g, n) {
            Some(p) => if edge_at(g, n, p).2 is HasField {
                None
            } else {
                match spread_target(g, edge_at(g, n, p).1) {
                    Some(t) => if first_type_name(graph_nodes(g), graph_edges(g), schema.types@, outgoing_order(g, n))
                        == first_type_name(graph_nodes(g), graph_edges(g), schema.types@, outgoing_order(g, t)) {
                        Some(t)
                    } else {
                        None
                    },
                    None => None,
                }
            },
            None => None,
        }
    } else {
        None
    }
}

/// A query fragment whose only selection is a spread can be lifted once
/// the fragment and the spread's fragment have types.
pub open spec fn lift_resolves(g: QueryGraph, schema: Schema, n: int) -> bool {
    graph_nodes(g).dom().contains(n) && graph_nodes(g)[n] == Node::QueryFragment ==> match sole_selection(g, n) {
        Some(p) => !(edge_at(g, n, p).2 is HasField) ==> {
            &&& graph_nodes(g).dom().contains(edge_at(g, n, p).1)
            &&& spread_target(g, edge_at(g, n, p).1) is Some
            &&& is_typed_fragment(g, schema, n)
            &&& is_typed_fragment(g, schema, spread_target(g, edge_at(g, n, p).1)->0)
        },
        None => true,
    }
}

proof fn lemma_sole_selection(g: QueryGraph, n: int, q: Seq<int>)
    requires
        selection_order(g, n, q),
    ensures
        q.len() == 1 ==> sole_selection(g, n) == Some(q[0]),
        q.len() != 1 ==> sole_selection(g, n) is None,
{
    let len = outgoing_order(g, n).len();
    if q.len() == 1 {
        assert(selection_at(g, n, q[0]) is Some);
        assert forall|p2: int| 0 <= p2 < len && p2 != q[0] implies #[trigger] selection_at(g, n, p2) is None by {
            if selection_at(g, n, p2) is Some {
                let i = choose|i: int| 0 <= i < q.len() && q[i] == p2;
            }
        }
        let p = sole_selection(g, n)->0;
        assert(sole_selection(g, n) is Some);
        if p != q[0] {
            assert(selection_at(g, n, q[0]) is Some);
        }
    } else if q.len() == 0 {
        if sole_selection(g, n) is Some {
            let p = choose|p: int|
                0 <= p < len && #[trigger] selection_at(g, n, p) is Some && forall|p2: int|
                    0 <= p2 < len && p2 != p ==> #[trigger] selection_at(g, n, p2) is None;
            let i = choose|i: int| 0 <= i < q.len() && q[i] == p;
        }
    } else {
        assert(q[0] != q[1]) by {
            assert(selection_before(
                (selection_at(g, n, q[0])->0, q[0] as usize),
                (selection_at(g, n, q[1])->0, q[1] as usize),
            ));
        }
        if sole_selection(g, n) is Some {
            let p = choose|p: int|
                0 <= p < len && #[trigger] selection_at(g, n, p) is Some && forall|p2: int|
                    0 <= p2 < len && p2 != p ==> #[trigger] selection_at(g, n, p2) is None;
            assert(selection_at(g, n, q[0]) is Some);
            assert(selection_at(g, n, q[1]) is Some);
        }
    }
}

/// Replaces the query fragment at `node` by the fragment its only
/// selection spreads, where `lift_target` finds one: each field edge into
/// it is copied to end at that fragment instead; then the node goes, with
/// the edges at it, when only field edges led to it, and otherwise only
/// the field edges into it go. Tells whether it did so.
pub fn lift_solo_spread(
    g: &mut QueryGraph,
    node: NodeIndex<usize>,
    schema: &Schema,
    operations: &Vec<OperationDefinition>,
    fragments: &Vec<FragmentDefinition>,
) -> (r: bool)
    requires
        lift_resolves(*old(g), *schema, node_number(node)),
    ensures
        r == (lift_target(*old(g), *schema, node_number(node)) is Some),
        !r ==> *final(g) == *old(g),
        r ==> ({
            let n = node_number(node);
            let t = lift_target(*old(g), *schema, n)->0;
            let hs = copied_edges(graph_edges(*old(g)), incoming_order(*old(g), n), true);
            exists|mid: Map<int, (int, int, Edge)>|
                {
                    &&& copies_added(graph_edges(*old(g)), mid, hs, t)
                    &&& if hs.len() == incoming_order(*old(g), n).len() {
                        &&& graph_nodes(*final(g)) == graph_nodes(*old(g)).remove(n)
                        &&& forall|k: int|
                            #[trigger] graph_edges(*final(g)).dom().contains(k) <==> (mid.dom().contains(k) && mid[k].0 != n
                                && mid[k].1 != n)
                        &&& forall|k: int| #[trigger] graph_edges(*final(g)).dom().contains(k) ==> graph_edges(*final(g))[k] == mid[k]
                    } else {
                        &&& graph_nodes(*final(g)) == graph_nodes(*old(g))
                        &&& forall|k: int|
                            #[trigger] graph_edges(*final(g)).dom().contains(k) <==> (mid.dom().contains(k) && !hs.contains(k))
                        &&& forall|k: int| #[trigger] graph_edges(*final(g)).dom().contains(k) ==> graph_edges(*final(g))[k] == mid[k]
                    }
                }
        }),
{
    let ghost g0 = *g;
    let ghost n = node_number(node);
    if !contains_node(g, node) {
        return false;
    }
    match node_weight(g, node) {
        Node::QueryFragment => {},
        _ => {
            return false;
        },
    }
    let sels = ordered_selections(g, node);
    proof {
        lemma_sole_selection(*g, n, sels@.map_values(|e: (usize, usize)| e.1 as int));
    }
    if sels.len() != 1 {
        return false;
    }
    let p = sels[0].1;
    assert(sels@.map_values(|e: (usize, usize)| e.1 as int)[0] == p as int);
    let t: NodeIndex<usize>;
    {
        let out = outgoing_edges(g, node);
        assert(selection_order(*g, n, sels@.map_values(|e: (usize, usize)| e.1 as int)));
        assert(0 <= p < outgoing_order(*g, n).len());
        assert(out@.len() == outgoing_order(*g, n).len());
        assert(node_number(out@[p as int].0) == graph_edges(*g)[outgoing_order(*g, node_number(node))[p as int]].1);
        assert(node_number(out@[p as int].0) == edge_at(*g, n, p as int).1 && *out@[p as int].1 == edge_at(*g, n, p as int).2);
        let target = out[p].0;
        match out[p].1 {
            Edge::HasField { .. } => {
                return false;
            },
            _ => {},
        }
        t = match find_spread_target(g, target) {
            Some(x) => x,
            None => {
                return false;
            },
        };
        let a = GraphFragment::new(g, node, schema, operations, fragments).unwrap();
        let b = GraphFragment::new(g, t, schema, operations, fragments).unwrap();
        let ai = a.type_index();
        let bi = b.type_index();
        if !str_eq(schema.types[ai].name.as_str(), schema.types[bi].name.as_str()) {
            return false;
        }
    }
    assert(lift_target(g0, *schema, n) == Some(node_number(t)));
    let total = incoming_sources(g, node).len();
    let ghost hs = copied_edges(graph_edges(g0), incoming_order(g0, n), true);
    let ids = copy_incoming(g, node, t, true);
    let ghost mid = graph_edges(*g);
    if ids.len() == total {
        remove_node(g, node);
        assert(copies_added(graph_edges(g0), mid, hs, node_number(t)));
    } else {
        let mut i: usize = 0;
        while i < ids.len()
            invariant
                i <= ids@.len(),
                ids@.len() == hs.len(),
                forall|m: int| 0 <= m < ids@.len() ==> edge_number(#[trigger] ids@[m]) == hs[m],
                graph_nodes(*g) == graph_nodes(g0),
                forall|k: int|
                    #[trigger] graph_edges(*g).dom().contains(k) <==> (mid.dom().contains(k) && !hs.take(i as int).contains(k)),
                forall|k: int| #[trigger] graph_edges(*g).dom().contains(k) ==> graph_edges(*g)[k] == mid[k],
            decreases ids.len() - i,
        {
            let ghost before = graph_edges(*g);
            remove_edge(g, ids[i]);
            proof {
                assert forall|k: int|
                    #[trigger] graph_edges(*g).dom().contains(k) <==> (mid.dom().contains(k) && !hs.take(i + 1).contains(k)) by {
                    assert(edge_number(ids@[i as int]) == hs[i as int]);
                    assert(graph_edges(*g) == before.remove(hs[i as int]));
                    assert(before.dom().contains(k) <==> (mid.dom().contains(k) && !hs.take(i as int).contains(k)));
                    if hs.take(i as int).contains(k) {
                        let j = choose|j: int| 0 <= j < i && #[trigger] hs.take(i as int)[j] == k;
                        assert(hs.take(i + 1)[j] == k);
                    }
                    if hs.take(i + 1).contains(k) {
                        let j = choose|j: int| 0 <= j < i + 1 && #[trigger] hs.take(i + 1)[j] == k;
                        if j < i {
                            assert(hs.take(i as int)[j] == k);
                        } else {
                            assert(k == hs[i as int]);
                        }
                    }
                    if k == hs[i as int] {
                        assert(hs.take(i + 1)[i as int] == k);
                    }
                }
            }
            i = i + 1;
        }
        assert(hs.take(hs.len() as int) == hs);
        assert(copies_added(graph_edges(g0), mid, hs, node_number(t)));
    }
    true
}

} // verus!
