//! What holds of every normalization.

use crate::canonical::{
    ascending, count_edges, key_lt, lemma_canonical_ids_distinct, lemma_key_lt_irreflexive,
    lemma_key_lt_transitive, lemma_retained_has_place,
};
use crate::kind::PrivateDepKind;
use crate::metadata::{MetadataPackageView, MetadataView, ResolveView};
use crate::package::PackageView;
use crate::text::source_string;
use vstd::prelude::*;
use vstd::relations::{sorted_by, total_ordering};

verus! {

/// The places in `order` hold packages in strictly rising canonical order.
pub open spec fn strictly_sorted(packages: Seq<MetadataPackageView>, order: Seq<usize>) -> bool {
    forall|k: int, l: int|
        0 <= k < l < order.len() ==> key_lt(
            packages[#[trigger] order[k] as int],
            packages[#[trigger] order[l] as int],
        )
}

/// Two lists of places that are each in strictly rising canonical order and
/// that hold the same places are the same list.
pub proof fn lemma_sorted_places_unique(
    packages: Seq<MetadataPackageView>,
    x: Seq<usize>,
    y: Seq<usize>,
)
    requires
        strictly_sorted(packages, x),
        strictly_sorted(packages, y),
        forall|i: usize| x.contains(i) <==> y.contains(i),
    ensures
        x == y,
    decreases x.len(),
{
    if x.len() == 0 {
        if y.len() > 0 {
            assert(y.contains(y[0]));
            assert(x.contains(y[0]));
        }
        assert(x =~= y);
    } else if y.len() == 0 {
        assert(x.contains(x[0]));
        assert(y.contains(x[0]));
    } else {
        assert(x.contains(x[0]));
        assert(y.contains(y[0]));
        assert(y.contains(x[0]));
        assert(x.contains(y[0]));
        let i = choose|i: int| 0 <= i < x.len() && x[i] == y[0];
        let j = choose|j: int| 0 <= j < y.len() && y[j] == x[0];
        if x[0] != y[0] {
            assert(key_lt(packages[x[0] as int], packages[x[i] as int]));
            assert(key_lt(packages[y[0] as int], packages[y[j] as int]));
            lemma_key_lt_transitive(
                packages[x[0] as int],
                packages[y[0] as int],
                packages[x[0] as int],
            );
            lemma_key_lt_irreflexive(packages[x[0] as int]);
        }
        let xt = x.drop_first();
        let yt = y.drop_first();
        assert forall|k: int, l: int| 0 <= k < l < xt.len() implies key_lt(
            packages[#[trigger] xt[k] as int],
            packages[#[trigger] xt[l] as int],
        ) by {
            assert(xt[k] == x[k + 1] && xt[l] == x[l + 1]);
        }
        assert forall|k: int, l: int| 0 <= k < l < yt.len() implies key_lt(
            packages[#[trigger] yt[k] as int],
            packages[#[trigger] yt[l] as int],
        ) by {
            assert(yt[k] == y[k + 1] && yt[l] == y[l + 1]);
        }
        assert forall|v: usize| xt.contains(v) <==> yt.contains(v) by {
            if xt.contains(v) {
                let k = choose|k: int| 0 <= k < xt.len() && xt[k] == v;
                assert(x[k + 1] == v);
                assert(x.contains(v));
                assert(key_lt(packages[x[0] as int], packages[x[k + 1] as int]));
                lemma_key_lt_irreflexive(packages[x[0] as int]);
                let l = choose|l: int| 0 <= l < y.len() && y[l] == v;
                assert(l > 0);
                assert(yt[l - 1] == v);
            }
            if yt.contains(v) {
                let k = choose|k: int| 0 <= k < yt.len() && yt[k] == v;
                assert(y[k + 1] == v);
                assert(y.contains(v));
                assert(key_lt(packages[y[0] as int], packages[y[k + 1] as int]));
                lemma_key_lt_irreflexive(packages[y[0] as int]);
                let l = choose|l: int| 0 <= l < x.len() && x[l] == v;
                assert(l > 0);
                assert(xt[l - 1] == v);
            }
        }
        lemma_sorted_places_unique(packages, xt, yt);
        assert(x =~= seq![x[0]] + xt);
        assert(y =~= seq![y[0]] + yt);
    }
}

/// The packages that are kept stand in one order only.
pub proof fn lemma_canonical_order_unique(g: MetadataView, x: Seq<usize>, y: Seq<usize>)
    requires
        g.is_canonical_order(x),
        g.is_canonical_order(y),
    ensures
        x == y,
{
    assert forall|i: usize| x.contains(i) <==> y.contains(i) by {
        if x.contains(i) {
            let k = choose|k: int| 0 <= k < x.len() && x[k] == i;
            assert(g.survives(x[k] as int));
            let l = choose|l: int| 0 <= l < y.len() && #[trigger] y[l] == i as int;
            assert(y[l] == i);
        }
        if y.contains(i) {
            let k = choose|k: int| 0 <= k < y.len() && y[k] == i;
            assert(g.survives(y[k] as int));
            let l = choose|l: int| 0 <= l < x.len() && #[trigger] x[l] == i as int;
            assert(x[l] == i);
        }
    }
    lemma_sorted_places_unique(g.packages, x, y);
}

/// Two ascending lists of places that hold each place equally often are the
/// same list.
pub proof fn lemma_ascending_unique(x: Seq<usize>, y: Seq<usize>)
    requires
        ascending(x),
        ascending(y),
        x.to_multiset() == y.to_multiset(),
    ensures
        x == y,
{
    let leq = |a: usize, b: usize| a <= b;
    assert(sorted_by(x, leq));
    assert(sorted_by(y, leq));
    assert(total_ordering(leq));
    vstd::seq_lib::lemma_sorted_unique(x, y, leq);
}

/// Determinism: a graph has one canonical package list. Whatever
/// normalization returns for a graph, it returns every time.
pub proof fn lemma_normal_form_unique(g: MetadataView, a: Seq<PackageView>, b: Seq<PackageView>)
    requires
        g.is_normal_form(a),
        g.is_normal_form(b),
    ensures
        a == b,
{
    let x = choose|order: Seq<usize>| g.is_normal_form_by(order, a);
    let y = choose|order: Seq<usize>| g.is_normal_form_by(order, b);
    lemma_canonical_order_unique(g, x, y);
    assert forall|k: int| 0 <= k < a.len() implies a[k] == b[k] by {
        assert(g.is_package_at(x, k, a[k]));
        assert(g.is_package_at(x, k, b[k]));
        lemma_package_at_unique(g, x, k, a[k], b[k]);
    }
    assert(a =~= b);
}

/// The package at a place of the canonical list is determined by the graph
/// and the order.
pub proof fn lemma_package_at_unique(
    g: MetadataView,
    order: Seq<usize>,
    k: int,
    a: PackageView,
    b: PackageView,
)
    requires
        g.is_package_at(order, k, a),
        g.is_package_at(order, k, b),
    ensures
        a == b,
{
    broadcast use vstd::seq_lib::group_to_multiset_ensures;

    let da = a.dependencies;
    let db = b.dependencies;
    assert forall|v: usize| da.to_multiset().count(v) == db.to_multiset().count(v) by {
        if v >= order.len() {
            if da.to_multiset().count(v) > 0 {
                assert(da.contains(v));
                let j = choose|j: int| 0 <= j < da.len() && da[j] == v;
                assert(da[j] < order.len());
            }
            if db.to_multiset().count(v) > 0 {
                assert(db.contains(v));
                let j = choose|j: int| 0 <= j < db.len() && db[j] == v;
                assert(db[j] < order.len());
            }
        }
    }
    assert(da.to_multiset() =~= db.to_multiset());
    lemma_ascending_unique(da, db);
}

/// Strongest wins: the aggregate kind of a package is at least as strong as
/// every kind under which an edge leads to it. So a package that one edge
/// reaches as a build dependency and another as a runtime dependency is a
/// runtime dependency.
pub proof fn lemma_aggregate_kind_is_strongest(r: ResolveView, id: Seq<char>, kind: PrivateDepKind)
    requires
        r.has_tag(id, kind),
    ensures
        kind.spec_rank() <= r.aggregate_kind(id).spec_rank(),
        r.has_tag(id, PrivateDepKind::Runtime) ==> r.aggregate_kind(id) == PrivateDepKind::Runtime,
{
}

/// The aggregate kind of a package other than the root is one of the kinds
/// under which an edge leads to it, where there is any.
pub proof fn lemma_aggregate_kind_is_found(r: ResolveView, id: Seq<char>, kind: PrivateDepKind)
    requires
        r.root != Some(id),
        r.has_tag(id, kind),
    ensures
        r.has_tag(id, r.aggregate_kind(id)),
{
    if kind == PrivateDepKind::Runtime {
    } else if kind == PrivateDepKind::Build {
    } else {
    }
}

/// The root is a runtime dependency, whatever leads to it.
pub proof fn lemma_root_is_runtime(r: ResolveView, id: Seq<char>)
    requires
        r.root == Some(id),
    ensures
        r.aggregate_kind(id) == PrivateDepKind::Runtime,
{
}

/// A package is a development dependency exactly when it is not the root,
/// some edge leads to it under the kind `Development`, and no edge leads to
/// it under another kind.
pub proof fn lemma_development_only(r: ResolveView, id: Seq<char>)
    ensures
        r.aggregate_kind(id) == PrivateDepKind::Development <==> {
            &&& r.root != Some(id)
            &&& r.has_tag(id, PrivateDepKind::Development)
            &&& !r.has_tag(id, PrivateDepKind::Build)
            &&& !r.has_tag(id, PrivateDepKind::Runtime)
        },
{
}

/// Development-only exclusion: a package of the graph whose aggregate kind
/// is `Development` has no place in the canonical list; every other package
/// of the graph has exactly one place, and stands there with its aggregate
/// kind.
pub proof fn lemma_development_excluded(
    g: MetadataView,
    order: Seq<usize>,
    list: Seq<PackageView>,
    id: Seq<char>,
)
    requires
        g.is_normal_form_by(order, list),
        g.has_package(id),
    ensures
        g.resolve->0.aggregate_kind(id) == PrivateDepKind::Development ==> forall|k: int|
            0 <= k < order.len() ==> g.packages[#[trigger] order[k] as int].id != id,
        g.resolve->0.aggregate_kind(id) != PrivateDepKind::Development ==> exists|k: int|
            {
                &&& 0 <= k < order.len()
                &&& g.packages[#[trigger] order[k] as int].id == id
                &&& list[k].kind == g.resolve->0.aggregate_kind(id).to_public()
                &&& forall|l: int|
                    0 <= l < order.len() && l != k ==> g.packages[#[trigger] order[l] as int].id
                        != id
            },
{
    let r = g.resolve->0;
    if r.aggregate_kind(id) == PrivateDepKind::Development {
        assert forall|k: int| 0 <= k < order.len() implies g.packages[#[trigger] order[k] as int].id
            != id by {
            assert(g.survives(order[k] as int));
        }
    } else {
        lemma_retained_has_place(g, order, id);
        let k = choose|k: int|
            0 <= k < order.len() && g.packages[#[trigger] order[k] as int].id == id;
        assert(g.is_package_at(order, k, list[k]));
        assert forall|l: int| 0 <= l < order.len() && l != k implies g.packages[#[trigger] order[l] as int].id
            != id by {
            lemma_canonical_ids_distinct(g, order, l, k);
        }
    }
}

/// Idempotence: where the packages of a graph already stand in canonical
/// order, each with an id of its own, and none of them is a development
/// dependency, normalization keeps every package at its place: the list is
/// as long as the graph's, place `k` holds the graph's package `k`, and its
/// dependencies are the places of the packages its edges lead to.
pub proof fn lemma_sorted_graph_keeps_places(
    g: MetadataView,
    order: Seq<usize>,
    list: Seq<PackageView>,
)
    requires
        g.is_normal_form_by(order, list),
        g.packages.len() <= usize::MAX,
        forall|i: int, j: int|
            0 <= i < j < g.packages.len() ==> key_lt(
                #[trigger] g.packages[i],
                #[trigger] g.packages[j],
            ),
        forall|i: int, j: int|
            0 <= i < j < g.packages.len() ==> (#[trigger] g.packages[i]).id != (
            #[trigger] g.packages[j]).id,
        forall|i: int|
            0 <= i < g.packages.len() ==> g.resolve->0.aggregate_kind(
                (#[trigger] g.packages[i]).id,
            ) != PrivateDepKind::Development,
    ensures
        list.len() == g.packages.len(),
        order.len() == g.packages.len(),
        forall|k: int| 0 <= k < order.len() ==> #[trigger] order[k] == k,
        forall|k: int|
            0 <= k < list.len() ==> {
                &&& (#[trigger] list[k]).name == g.packages[k].name
                &&& list[k].version == g.packages[k].version
                &&& list[k].source == source_string(g.packages[k].source)
                &&& list[k].kind == g.resolve->0.aggregate_kind(g.packages[k].id).to_public()
            },
        forall|k: int, v: usize|
            0 <= k < list.len() && v < list.len() ==> #[trigger] list[k].dependencies.to_multiset().count(
                v,
            ) == count_edges(g.resolve->0.nodes, g.packages[k].id, g.packages[v as int].id),
{
    let n = g.packages.len();
    let identity = Seq::new(n, |i: int| i as usize);
    assert(g.is_canonical_order(identity)) by {
        assert forall|k: int| 0 <= k < identity.len() implies g.survives(
            #[trigger] identity[k] as int,
        ) by {
            assert(g.is_last_with_id(k));
        }
        assert forall|i: int| #[trigger] g.survives(i) implies exists|k: int|
            0 <= k < identity.len() && #[trigger] identity[k] == i by {
            assert(identity[i] == i);
        }
        assert forall|k: int, l: int| 0 <= k < l < identity.len() implies key_lt(
            g.packages[#[trigger] identity[k] as int],
            g.packages[#[trigger] identity[l] as int],
        ) by {
            assert(identity[k] as int == k && identity[l] as int == l);
            assert(key_lt(g.packages[k], g.packages[l]));
        }
    }
    lemma_canonical_order_unique(g, order, identity);
    assert forall|k: int| 0 <= k < order.len() implies #[trigger] order[k] == k by {
        assert(identity[k] == k);
    }
    assert forall|k: int| 0 <= k < list.len() implies {
        &&& (#[trigger] list[k]).name == g.packages[k].name
        &&& list[k].version == g.packages[k].version
        &&& list[k].source == source_string(g.packages[k].source)
        &&& list[k].kind == g.resolve->0.aggregate_kind(g.packages[k].id).to_public()
    } by {
        assert(g.is_package_at(order, k, list[k]));
        assert(order[k] == k);
    }
    assert forall|k: int, v: usize| 0 <= k < list.len() && v < list.len() implies #[trigger]
        list[k].dependencies.to_multiset().count(v) == count_edges(
        g.resolve->0.nodes,
        g.packages[k].id,
        g.packages[v as int].id,
    ) by {
        assert(g.is_package_at(order, k, list[k]));
        assert(order[k] == k);
        assert(order[v as int] == v);
    }
}

} // verus!
