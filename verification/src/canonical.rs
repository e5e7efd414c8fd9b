//! What the canonical package list of a resolved graph is: which packages
//! it keeps, in which order they stand, and which places each refers to.

use crate::kind::PrivateDepKind;
use crate::metadata::{MetadataPackageView, MetadataView, NodeDepView, NodeView};
use crate::package::PackageView;
use crate::text::{
    lemma_lex_lt_irreflexive, lemma_lex_lt_total, lemma_lex_lt_transitive, lemma_utf8_injective,
    source_string, str_lt,
};
use vstd::prelude::*;
use vstd::utf8::encode_utf8;

verus! {

/// The order in which packages stand in the canonical list: by name, then
/// by version, then by id, each compared as a string. Versions are compared
/// as text, not as version numbers.
pub open spec fn key_lt(a: MetadataPackageView, b: MetadataPackageView) -> bool {
    str_lt(a.name, b.name) || (a.name == b.name && (str_lt(a.version, b.version) || (a.version
        == b.version && str_lt(a.id, b.id))))
}

/// No package stands before itself.
pub proof fn lemma_key_lt_irreflexive(a: MetadataPackageView)
    ensures
        !key_lt(a, a),
{
    lemma_lex_lt_irreflexive(encode_utf8(a.name));
    lemma_lex_lt_irreflexive(encode_utf8(a.version));
    lemma_lex_lt_irreflexive(encode_utf8(a.id));
}

/// The order of packages is transitive.
pub proof fn lemma_key_lt_transitive(
    a: MetadataPackageView,
    b: MetadataPackageView,
    c: MetadataPackageView,
)
    requires
        key_lt(a, b),
        key_lt(b, c),
    ensures
        key_lt(a, c),
{
    if str_lt(a.name, b.name) && str_lt(b.name, c.name) {
        lemma_lex_lt_transitive(encode_utf8(a.name), encode_utf8(b.name), encode_utf8(c.name));
    }
    if str_lt(a.version, b.version) && str_lt(b.version, c.version) {
        lemma_lex_lt_transitive(
            encode_utf8(a.version),
            encode_utf8(b.version),
            encode_utf8(c.version),
        );
    }
    if str_lt(a.id, b.id) && str_lt(b.id, c.id) {
        lemma_lex_lt_transitive(encode_utf8(a.id), encode_utf8(b.id), encode_utf8(c.id));
    }
}

/// Of two packages with different ids one stands before the other: ties
/// are never arbitrary.
pub proof fn lemma_key_lt_total(a: MetadataPackageView, b: MetadataPackageView)
    requires
        a.id != b.id,
    ensures
        key_lt(a, b) || key_lt(b, a),
{
    lemma_lex_lt_total(encode_utf8(a.name), encode_utf8(b.name));
    lemma_lex_lt_total(encode_utf8(a.version), encode_utf8(b.version));
    lemma_lex_lt_total(encode_utf8(a.id), encode_utf8(b.id));
    if encode_utf8(a.name) == encode_utf8(b.name) {
        lemma_utf8_injective(a.name, b.name);
    }
    if encode_utf8(a.version) == encode_utf8(b.version) {
        lemma_utf8_injective(a.version, b.version);
    }
    if encode_utf8(a.id) == encode_utf8(b.id) {
        lemma_utf8_injective(a.id, b.id);
    }
}

/// How many of the edges in `deps` lead to `to`.
pub open spec fn count_edges_to(deps: Seq<NodeDepView>, to: Seq<char>) -> nat
    decreases deps.len(),
{
    if deps.len() == 0 {
        0
    } else {
        count_edges_to(deps.drop_last(), to) + if deps.last().pkg == to {
            1nat
        } else {
            0nat
        }
    }
}

/// How many edges lead from `from` to `to`, over all the nodes that carry
/// the id `from`.
pub open spec fn count_edges(nodes: Seq<NodeView>, from: Seq<char>, to: Seq<char>) -> nat
    decreases nodes.len(),
{
    if nodes.len() == 0 {
        0
    } else {
        count_edges(nodes.drop_last(), from, to) + if nodes.last().id == from {
            count_edges_to(nodes.last().deps, to)
        } else {
            0nat
        }
    }
}

/// A sequence of places in ascending order.
pub open spec fn ascending(s: Seq<usize>) -> bool {
    forall|i: int, j: int| 0 <= i <= j < s.len() ==> s[i] <= s[j]
}

impl MetadataView {
    /// The graph holds a package with this id.
    pub open spec fn has_package(self, id: Seq<char>) -> bool {
        exists|i: int| 0 <= i < self.packages.len() && (#[trigger] self.packages[i]).id == id
    }

    /// Package `i` is the one that stands for its id: where several
    /// packages carry one id, the last of them does.
    pub open spec fn is_last_with_id(self, i: int) -> bool {
        &&& 0 <= i < self.packages.len()
        &&& forall|j: int|
            i < j < self.packages.len() ==> (#[trigger] self.packages[j]).id != self.packages[i].id
    }

    /// Package `i` is kept: it stands for its id, and its aggregate kind is
    /// not `Development`.
    pub open spec fn survives(self, i: int) -> bool
        recommends
            self.resolve is Some,
    {
        &&& self.is_last_with_id(i)
        &&& self.resolve->0.aggregate_kind(self.packages[i].id) != PrivateDepKind::Development
    }

    /// A package with this id is kept.
    pub open spec fn retains(self, id: Seq<char>) -> bool
        recommends
            self.resolve is Some,
    {
        self.has_package(id) && self.resolve->0.aggregate_kind(id) != PrivateDepKind::Development
    }

    /// Edge `e` of node `n` leaves a package that is kept and leads, under a
    /// kind that is not `Development`, to a package that the graph does not
    /// hold.
    pub open spec fn dangling(self, n: int, e: int) -> bool
        recommends
            self.resolve is Some,
    {
        let r = self.resolve->0;
        &&& 0 <= n < r.nodes.len()
        &&& 0 <= e < r.nodes[n].deps.len()
        &&& self.retains(r.nodes[n].id)
        &&& r.aggregate_kind(r.nodes[n].deps[e].pkg) != PrivateDepKind::Development
        &&& !self.has_package(r.nodes[n].deps[e].pkg)
    }

    /// The graph cannot be normalized: it has no resolution, or the
    /// resolution has no root; or it holds a package that is neither the
    /// root nor the target of any edge; or an edge dangles.
    pub open spec fn inconsistent(self) -> bool {
        match self.resolve {
            None => true,
            Some(r) => {
                ||| r.root is None
                ||| exists|i: int|
                    0 <= i < self.packages.len() && !r.knows((#[trigger] self.packages[i]).id)
                ||| exists|n: int, e: int| #[trigger] self.dangling(n, e)
            },
        }
    }

    /// `order` lists the packages that are kept, each once, in the order of
    /// the canonical list.
    pub open spec fn is_canonical_order(self, order: Seq<usize>) -> bool
        recommends
            self.resolve is Some,
    {
        &&& forall|k: int| 0 <= k < order.len() ==> self.survives(#[trigger] order[k] as int)
        &&& forall|i: int| #[trigger]
            self.survives(i) ==> exists|k: int| 0 <= k < order.len() && #[trigger] order[k] == i
        &&& forall|k: int, l: int|
            0 <= k < l < order.len() ==> key_lt(
                self.packages[#[trigger] order[k] as int],
                self.packages[#[trigger] order[l] as int],
            )
    }

    /// `package` is what the canonical list of length `order.len()` holds
    /// at place `k`, when the packages kept stand in the order `order`.
    ///
    /// Name and version are those of the graph's package; the source is
    /// shortened; the kind is the aggregate kind. The dependencies are in
    /// ascending order, and each place `v` stands in them once for every
    /// edge from this package to the package at place `v`.
    pub open spec fn is_package_at(self, order: Seq<usize>, k: int, package: PackageView) -> bool
        recommends
            self.resolve is Some,
            0 <= k < order.len(),
    {
        let r = self.resolve->0;
        let p = self.packages[order[k] as int];
        &&& package.name == p.name
        &&& package.version == p.version
        &&& package.source == source_string(p.source)
        &&& package.kind == r.aggregate_kind(p.id).to_public()
        &&& ascending(package.dependencies)
        &&& forall|j: int|
            0 <= j < package.dependencies.len() ==> (#[trigger] package.dependencies[j])
                < order.len()
        &&& forall|v: usize|
            v < order.len() ==> #[trigger] package.dependencies.to_multiset().count(v)
                == count_edges(r.nodes, p.id, self.packages[order[v as int] as int].id)
    }

    /// `list` is the canonical package list of the graph, its packages
    /// standing in the order `order`.
    pub open spec fn is_normal_form_by(self, order: Seq<usize>, list: Seq<PackageView>) -> bool {
        &&& self.resolve is Some
        &&& self.is_canonical_order(order)
        &&& list.len() == order.len()
        &&& forall|k: int| 0 <= k < list.len() ==> self.is_package_at(order, k, #[trigger] list[k])
    }

    /// `list` is the canonical package list of the graph.
    pub open spec fn is_normal_form(self, list: Seq<PackageView>) -> bool {
        exists|order: Seq<usize>| self.is_normal_form_by(order, list)
    }
}

/// Counting the edges to `to` among the first `e + 1` edges.
pub proof fn lemma_count_edges_to_step(deps: Seq<NodeDepView>, e: int, to: Seq<char>)
    requires
        0 <= e < deps.len(),
    ensures
        count_edges_to(deps.take(e + 1), to) == count_edges_to(deps.take(e), to) + if deps[e].pkg
            == to {
            1nat
        } else {
            0nat
        },
{
    assert(deps.take(e + 1).drop_last() =~= deps.take(e));
}

/// Counting the edges from `from` to `to` among the first `n + 1` nodes.
pub proof fn lemma_count_edges_step(
    nodes: Seq<NodeView>,
    n: int,
    from: Seq<char>,
    to: Seq<char>,
)
    requires
        0 <= n < nodes.len(),
    ensures
        count_edges(nodes.take(n + 1), from, to) == count_edges(nodes.take(n), from, to)
            + if nodes[n].id == from {
            count_edges_to(nodes[n].deps, to)
        } else {
            0nat
        },
{
    assert(nodes.take(n + 1).drop_last() =~= nodes.take(n));
}

/// Where the graph holds a package with some id, one of the packages with
/// that id is the last.
pub proof fn lemma_last_with_id_exists(g: MetadataView, id: Seq<char>)
    requires
        g.has_package(id),
    ensures
        exists|i: int| #[trigger] g.is_last_with_id(i) && g.packages[i].id == id,
{
    let i0 = choose|i: int| 0 <= i < g.packages.len() && (#[trigger] g.packages[i]).id == id;
    lemma_last_with_id_from(g, id, i0);
}

proof fn lemma_last_with_id_from(g: MetadataView, id: Seq<char>, i: int)
    requires
        0 <= i < g.packages.len(),
        g.packages[i].id == id,
    ensures
        exists|l: int| #[trigger] g.is_last_with_id(l) && g.packages[l].id == id,
    decreases g.packages.len() - i,
{
    if g.is_last_with_id(i) {
    } else {
        let j = choose|j: int|
            i < j < g.packages.len() && (#[trigger] g.packages[j]).id == g.packages[i].id;
        lemma_last_with_id_from(g, id, j);
    }
}

/// Two places of a canonical order hold packages with different ids.
pub proof fn lemma_canonical_ids_distinct(g: MetadataView, order: Seq<usize>, a: int, b: int)
    requires
        g.is_canonical_order(order),
        0 <= a < order.len(),
        0 <= b < order.len(),
        a != b,
    ensures
        g.packages[order[a] as int].id != g.packages[order[b] as int].id,
        order[a] != order[b],
{
    let x = order[a] as int;
    let y = order[b] as int;
    assert(g.survives(x) && g.survives(y));
    if a < b {
        assert(key_lt(g.packages[x], g.packages[y]));
    } else {
        assert(key_lt(g.packages[y], g.packages[x]));
    }
    lemma_key_lt_irreflexive(g.packages[x]);
    assert(x != y);
    if x < y {
        assert(g.is_last_with_id(x));
    } else {
        assert(g.is_last_with_id(y));
    }
}

/// A package that is kept has a place in every canonical order.
pub proof fn lemma_retained_has_place(g: MetadataView, order: Seq<usize>, id: Seq<char>)
    requires
        g.resolve is Some,
        g.is_canonical_order(order),
        g.retains(id),
    ensures
        exists|k: int| 0 <= k < order.len() && g.packages[#[trigger] order[k] as int].id == id,
{
    lemma_last_with_id_exists(g, id);
    let i = choose|i: int| #[trigger] g.is_last_with_id(i) && g.packages[i].id == id;
    assert(g.survives(i));
    let k = choose|k: int| 0 <= k < order.len() && #[trigger] order[k] == i;
    assert(g.packages[order[k] as int].id == id);
}

} // verus!
