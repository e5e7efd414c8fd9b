//! The canonical list does not depend on the order in which the edges of a
//! resolution are written down.

use crate::canonical::{count_edges, count_edges_to};
use crate::kind::PrivateDepKind;
use crate::metadata::{MetadataView, NodeDepView, NodeView, ResolveView};
use crate::package::PackageView;
use vstd::prelude::*;

verus! {

/// An edge, together with the id of the node that it leaves.
pub struct EdgeView {
    pub from: Seq<char>,
    pub dep: NodeDepView,
}

/// The edges of one node.
pub open spec fn node_edges(node: NodeView) -> Seq<EdgeView> {
    Seq::new(node.deps.len(), |e: int| EdgeView { from: node.id, dep: node.deps[e] })
}

/// The edges of all nodes, one after the other.
pub open spec fn edges_of(nodes: Seq<NodeView>) -> Seq<EdgeView>
    decreases nodes.len(),
{
    if nodes.len() == 0 {
        Seq::empty()
    } else {
        edges_of(nodes.drop_last()) + node_edges(nodes.last())
    }
}

/// Two resolutions hold the same edges, each as often as the other, in
/// whatever order, and start from the same root.
pub open spec fn same_edges(a: ResolveView, b: ResolveView) -> bool {
    a.root == b.root && edges_of(a.nodes).to_multiset() == edges_of(b.nodes).to_multiset()
}

/// How many edges of a list lead from `from` to `to`.
pub open spec fn count_matching(edges: Seq<EdgeView>, from: Seq<char>, to: Seq<char>) -> nat
    decreases edges.len(),
{
    if edges.len() == 0 {
        0
    } else {
        count_matching(edges.drop_last(), from, to) + if edges.last().from == from
            && edges.last().dep.pkg == to {
            1nat
        } else {
            0nat
        }
    }
}

/// An edge is among the edges of all nodes exactly when it is an edge of one
/// of the nodes.
pub proof fn lemma_edges_of_contains(nodes: Seq<NodeView>, x: EdgeView)
    ensures
        edges_of(nodes).contains(x) <==> exists|n: int, e: int|
            0 <= n < nodes.len() && 0 <= e < nodes[n].deps.len() && x.from == nodes[n].id && x.dep
                == #[trigger] nodes[n].deps[e],
    decreases nodes.len(),
{
    if nodes.len() == 0 {
    } else {
        let front = nodes.drop_last();
        let last = nodes.last();
        lemma_edges_of_contains(front, x);
        let all = edges_of(nodes);
        if all.contains(x) {
            let i = choose|i: int| 0 <= i < all.len() && all[i] == x;
            if i < edges_of(front).len() {
                assert(edges_of(front)[i] == x);
                assert(edges_of(front).contains(x));
                let (n, e) = choose|n: int, e: int|
                    0 <= n < front.len() && 0 <= e < front[n].deps.len() && x.from == front[n].id
                        && x.dep == #[trigger] front[n].deps[e];
                assert(nodes[n].deps[e] == x.dep);
            } else {
                let e = i - edges_of(front).len();
                assert(node_edges(last)[e] == x);
                assert(nodes[nodes.len() - 1].deps[e] == x.dep);
            }
        }
        if exists|n: int, e: int|
            0 <= n < nodes.len() && 0 <= e < nodes[n].deps.len() && x.from == nodes[n].id && x.dep
                == #[trigger] nodes[n].deps[e] {
            let (n, e) = choose|n: int, e: int|
                0 <= n < nodes.len() && 0 <= e < nodes[n].deps.len() && x.from == nodes[n].id
                    && x.dep == #[trigger] nodes[n].deps[e];
            if n < front.len() {
                assert(front[n].deps[e] == x.dep);
                assert(edges_of(front).contains(x));
                let i = choose|i: int| 0 <= i < edges_of(front).len() && edges_of(front)[i] == x;
                assert(all[i] == x);
            } else {
                assert(node_edges(last)[e] == x);
                assert(all[edges_of(front).len() + e] == x);
            }
        }
    }
}

/// Counting over a list with one more edge of a node.
proof fn lemma_count_matching_node(
    head: Seq<EdgeView>,
    node: NodeView,
    upto: int,
    from: Seq<char>,
    to: Seq<char>,
)
    requires
        0 <= upto <= node.deps.len(),
    ensures
        count_matching(head + node_edges(node).take(upto), from, to) == count_matching(
            head,
            from,
            to,
        ) + if node.id == from {
            count_edges_to(node.deps.take(upto), to)
        } else {
            0nat
        },
    decreases upto,
{
    if upto == 0 {
        assert(head + node_edges(node).take(0) =~= head);
        assert(node.deps.take(0) =~= Seq::empty());
    } else {
        lemma_count_matching_node(head, node, upto - 1, from, to);
        let now = head + node_edges(node).take(upto);
        assert(now.drop_last() =~= head + node_edges(node).take(upto - 1));
        assert(now.last() == node_edges(node)[upto - 1]);
        assert(node.deps.take(upto).drop_last() =~= node.deps.take(upto - 1));
        assert(node.deps.take(upto).last() == node.deps[upto - 1]);
    }
}

/// The edges from one package to another are counted alike node by node
/// and over the edges of all nodes.
pub proof fn lemma_count_edges_flat(nodes: Seq<NodeView>, from: Seq<char>, to: Seq<char>)
    ensures
        count_edges(nodes, from, to) == count_matching(edges_of(nodes), from, to),
    decreases nodes.len(),
{
    if nodes.len() == 0 {
    } else {
        let front = nodes.drop_last();
        let last = nodes.last();
        lemma_count_edges_flat(front, from, to);
        lemma_count_matching_node(edges_of(front), last, last.deps.len() as int, from, to);
        assert(node_edges(last).take(last.deps.len() as int) =~= node_edges(last));
        assert(last.deps.take(last.deps.len() as int) =~= last.deps);
    }
}

/// Taking one edge out of a list lowers the count by what that edge counts.
proof fn lemma_count_matching_remove(edges: Seq<EdgeView>, i: int, from: Seq<char>, to: Seq<char>)
    requires
        0 <= i < edges.len(),
    ensures
        count_matching(edges, from, to) == count_matching(edges.remove(i), from, to)
            + if edges[i].from == from && edges[i].dep.pkg == to {
            1nat
        } else {
            0nat
        },
    decreases edges.len(),
{
    if i == edges.len() - 1 {
        assert(edges.remove(i) =~= edges.drop_last());
    } else {
        lemma_count_matching_remove(edges.drop_last(), i, from, to);
        assert(edges.remove(i).drop_last() =~= edges.drop_last().remove(i));
        assert(edges.remove(i).last() == edges.last());
    }
}

/// The count does not depend on the order of the edges.
pub proof fn lemma_count_matching_reordered(
    a: Seq<EdgeView>,
    b: Seq<EdgeView>,
    from: Seq<char>,
    to: Seq<char>,
)
    requires
        a.to_multiset() == b.to_multiset(),
    ensures
        count_matching(a, from, to) == count_matching(b, from, to),
    decreases a.len(),
{
    vstd::seq_lib::to_multiset_len(a);
    vstd::seq_lib::to_multiset_len(b);
    if a.len() == 0 {
    } else {
        let x = a.last();
        assert(a.contains(x));
        vstd::seq_lib::to_multiset_contains(a, x);
        vstd::seq_lib::to_multiset_contains(b, x);
        assert(b.contains(x));
        let j = choose|j: int| 0 <= j < b.len() && b[j] == x;
        let a1 = a.drop_last();
        let b1 = b.remove(j);
        assert(a1 =~= a.remove(a.len() - 1));
        vstd::seq_lib::to_multiset_remove(a, a.len() - 1);
        vstd::seq_lib::to_multiset_remove(b, j);
        assert(a1.to_multiset() == b1.to_multiset());
        lemma_count_matching_reordered(a1, b1, from, to);
        lemma_count_matching_remove(b, j, from, to);
    }
}

/// Resolutions with the same edges give every package the same aggregate
/// kind, know the same packages, and count the same edges between any two.
pub proof fn lemma_same_edges(a: ResolveView, b: ResolveView)
    requires
        same_edges(a, b),
    ensures
        forall|id: Seq<char>| #[trigger] a.has_edge_to(id) == b.has_edge_to(id),
        forall|id: Seq<char>, kind: PrivateDepKind| #[trigger]
            a.has_tag(id, kind) == b.has_tag(id, kind),
        forall|id: Seq<char>| #[trigger] a.aggregate_kind(id) == b.aggregate_kind(id),
        forall|id: Seq<char>| #[trigger] a.knows(id) == b.knows(id),
        forall|from: Seq<char>, to: Seq<char>| #[trigger]
            count_edges(a.nodes, from, to) == count_edges(b.nodes, from, to),
{
    assert forall|id: Seq<char>| #[trigger] a.has_edge_to(id) == b.has_edge_to(id) by {
        if a.has_edge_to(id) {
            lemma_has_edge_carries(a, b, id);
        }
        if b.has_edge_to(id) {
            lemma_has_edge_carries(b, a, id);
        }
    }
    assert forall|id: Seq<char>, kind: PrivateDepKind| #[trigger]
        a.has_tag(id, kind) == b.has_tag(id, kind) by {
        if a.has_tag(id, kind) {
            lemma_has_tag_carries(a, b, id, kind);
        }
        if b.has_tag(id, kind) {
            lemma_has_tag_carries(b, a, id, kind);
        }
    }
    assert forall|from: Seq<char>, to: Seq<char>| #[trigger]
        count_edges(a.nodes, from, to) == count_edges(b.nodes, from, to) by {
        lemma_count_edges_flat(a.nodes, from, to);
        lemma_count_edges_flat(b.nodes, from, to);
        lemma_count_matching_reordered(edges_of(a.nodes), edges_of(b.nodes), from, to);
    }
}

/// An edge of `a` is an edge of `b`, where `b` holds the edges of `a`.
proof fn lemma_edge_carries(a: ResolveView, b: ResolveView, n: int, e: int) -> (at: (int, int))
    requires
        edges_of(a.nodes).to_multiset() == edges_of(b.nodes).to_multiset(),
        0 <= n < a.nodes.len(),
        0 <= e < a.nodes[n].deps.len(),
    ensures
        0 <= at.0 < b.nodes.len(),
        0 <= at.1 < b.nodes[at.0].deps.len(),
        b.nodes[at.0].id == a.nodes[n].id,
        b.nodes[at.0].deps[at.1] == a.nodes[n].deps[e],
{
    let x = EdgeView { from: a.nodes[n].id, dep: a.nodes[n].deps[e] };
    lemma_edges_of_contains(a.nodes, x);
    assert(edges_of(a.nodes).contains(x));
    vstd::seq_lib::to_multiset_contains(edges_of(a.nodes), x);
    vstd::seq_lib::to_multiset_contains(edges_of(b.nodes), x);
    assert(edges_of(b.nodes).contains(x));
    lemma_edges_of_contains(b.nodes, x);
    choose|m: int, f: int|
        0 <= m < b.nodes.len() && 0 <= f < b.nodes[m].deps.len() && x.from == b.nodes[m].id
            && x.dep == #[trigger] b.nodes[m].deps[f]
}

proof fn lemma_has_edge_carries(a: ResolveView, b: ResolveView, id: Seq<char>)
    requires
        edges_of(a.nodes).to_multiset() == edges_of(b.nodes).to_multiset(),
        a.has_edge_to(id),
    ensures
        b.has_edge_to(id),
{
    let n = choose|n: int| 0 <= n < a.nodes.len() && (#[trigger] a.nodes[n]).has_edge_to(id);
    let e = choose|e: int| 0 <= e < a.nodes[n].deps.len() && (#[trigger] a.nodes[n].deps[e]).pkg == id;
    let at = lemma_edge_carries(a, b, n, e);
    assert(b.nodes[at.0].deps[at.1].pkg == id);
    assert(b.nodes[at.0].has_edge_to(id));
}

proof fn lemma_has_tag_carries(a: ResolveView, b: ResolveView, id: Seq<char>, kind: PrivateDepKind)
    requires
        edges_of(a.nodes).to_multiset() == edges_of(b.nodes).to_multiset(),
        a.has_tag(id, kind),
    ensures
        b.has_tag(id, kind),
{
    let n = choose|n: int| 0 <= n < a.nodes.len() && (#[trigger] a.nodes[n]).has_tag(id, kind);
    let e = choose|e: int|
        0 <= e < a.nodes[n].deps.len() && (#[trigger] a.nodes[n].deps[e]).pkg == id
            && a.nodes[n].deps[e].dep_kinds.contains(kind);
    let at = lemma_edge_carries(a, b, n, e);
    assert(b.nodes[at.0].deps[at.1].pkg == id);
    assert(b.nodes[at.0].has_tag(id, kind));
}

/// Two graphs hold the same packages, and their resolutions the same edges.
pub open spec fn same_graph(a: MetadataView, b: MetadataView) -> bool {
    &&& a.packages == b.packages
    &&& a.resolve is Some
    &&& b.resolve is Some
    &&& same_edges(a.resolve->0, b.resolve->0)
}

/// What is kept of one graph is kept of the other.
proof fn lemma_same_graph_keeps(a: MetadataView, b: MetadataView)
    requires
        same_graph(a, b),
    ensures
        forall|i: int| #[trigger] a.survives(i) == b.survives(i),
        forall|id: Seq<char>| #[trigger] a.retains(id) == b.retains(id),
        forall|id: Seq<char>| #[trigger] a.has_package(id) == b.has_package(id),
{
    lemma_same_edges(a.resolve->0, b.resolve->0);
    assert forall|id: Seq<char>| #[trigger] a.has_package(id) == b.has_package(id) by {
        if a.has_package(id) {
            let i = choose|i: int| 0 <= i < a.packages.len() && (#[trigger] a.packages[i]).id == id;
            assert(b.packages[i].id == id);
        }
        if b.has_package(id) {
            let i = choose|i: int| 0 <= i < b.packages.len() && (#[trigger] b.packages[i]).id == id;
            assert(a.packages[i].id == id);
        }
    }
    assert forall|i: int| #[trigger] a.survives(i) == b.survives(i) by {
        assert(a.is_last_with_id(i) == b.is_last_with_id(i));
        assert(a.resolve->0.aggregate_kind(a.packages[i].id) == b.resolve->0.aggregate_kind(
            a.packages[i].id,
        ));
    }
    assert forall|id: Seq<char>| #[trigger] a.retains(id) == b.retains(id) by {
        assert(a.resolve->0.aggregate_kind(id) == b.resolve->0.aggregate_kind(id));
    }
}

/// An edge that dangles in one graph dangles in the other.
proof fn lemma_dangling_carries(a: MetadataView, b: MetadataView, n: int, e: int)
    requires
        same_graph(a, b),
        a.dangling(n, e),
    ensures
        exists|m: int, f: int| #[trigger] b.dangling(m, f),
{
    let ra = a.resolve->0;
    let rb = b.resolve->0;
    lemma_same_edges(ra, rb);
    lemma_same_graph_keeps(a, b);
    let at = lemma_edge_carries(ra, rb, n, e);
    let from = ra.nodes[n].id;
    let to = ra.nodes[n].deps[e].pkg;
    assert(a.retains(from) == b.retains(from));
    assert(ra.aggregate_kind(to) == rb.aggregate_kind(to));
    assert(a.has_package(to) == b.has_package(to));
    assert(b.dangling(at.0, at.1));
}

/// One graph can be normalized exactly when the other can.
proof fn lemma_same_graph_consistent(a: MetadataView, b: MetadataView)
    requires
        same_graph(a, b),
        a.inconsistent(),
    ensures
        b.inconsistent(),
{
    let ra = a.resolve->0;
    let rb = b.resolve->0;
    lemma_same_edges(ra, rb);
    if ra.root is None {
    } else if exists|i: int| 0 <= i < a.packages.len() && !ra.knows((#[trigger] a.packages[i]).id) {
        let i = choose|i: int|
            0 <= i < a.packages.len() && !ra.knows((#[trigger] a.packages[i]).id);
        assert(ra.knows(a.packages[i].id) == rb.knows(a.packages[i].id));
        assert(!rb.knows(b.packages[i].id));
    } else {
        let (n, e) = choose|n: int, e: int| #[trigger] a.dangling(n, e);
        lemma_dangling_carries(a, b, n, e);
    }
}

/// The canonical list of one graph is the canonical list of the other.
proof fn lemma_same_graph_normal_form(
    a: MetadataView,
    b: MetadataView,
    order: Seq<usize>,
    list: Seq<PackageView>,
)
    requires
        same_graph(a, b),
        a.is_normal_form_by(order, list),
    ensures
        b.is_normal_form_by(order, list),
{
    let ra = a.resolve->0;
    let rb = b.resolve->0;
    lemma_same_edges(ra, rb);
    lemma_same_graph_keeps(a, b);
    assert forall|k: int| 0 <= k < order.len() implies b.survives(#[trigger] order[k] as int) by {
        assert(a.survives(order[k] as int));
    }
    assert forall|i: int| #[trigger] b.survives(i) implies exists|k: int|
        0 <= k < order.len() && #[trigger] order[k] == i by {
        assert(a.survives(i));
    }
    assert(b.is_canonical_order(order));
    assert forall|k: int| 0 <= k < list.len() implies b.is_package_at(
        order,
        k,
        #[trigger] list[k],
    ) by {
        assert(a.is_package_at(order, k, list[k]));
        let p = a.packages[order[k] as int];
        assert(ra.aggregate_kind(p.id) == rb.aggregate_kind(p.id));
        assert forall|v: usize| v < order.len() implies #[trigger]
            list[k].dependencies.to_multiset().count(v) == count_edges(
            rb.nodes,
            p.id,
            b.packages[order[v as int] as int].id,
        ) by {
            let to = a.packages[order[v as int] as int].id;
            assert(count_edges(ra.nodes, p.id, to) == count_edges(rb.nodes, p.id, to));
        }
    }
}

/// Determinism under reordering: two graphs with the same packages, whose
/// resolutions hold the same edges in whatever order, are refused alike, and
/// where they are not they have the same canonical list, with the same
/// places.
pub proof fn lemma_edge_order_is_irrelevant(
    a: MetadataView,
    b: MetadataView,
    list: Seq<PackageView>,
)
    requires
        same_graph(a, b),
    ensures
        a.inconsistent() == b.inconsistent(),
        a.is_normal_form(list) == b.is_normal_form(list),
{
    lemma_same_graph_symmetric(a, b);
    if a.inconsistent() {
        lemma_same_graph_consistent(a, b);
    }
    if b.inconsistent() {
        lemma_same_graph_consistent(b, a);
    }
    if a.is_normal_form(list) {
        let order = choose|order: Seq<usize>| a.is_normal_form_by(order, list);
        lemma_same_graph_normal_form(a, b, order, list);
    }
    if b.is_normal_form(list) {
        let order = choose|order: Seq<usize>| b.is_normal_form_by(order, list);
        lemma_same_graph_normal_form(b, a, order, list);
    }
}

/// Holding the same packages and edges goes both ways.
pub proof fn lemma_same_graph_symmetric(a: MetadataView, b: MetadataView)
    requires
        same_graph(a, b),
    ensures
        same_graph(b, a),
{
}

} // verus!
