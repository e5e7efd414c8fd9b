//! Normalization of a resolved dependency graph into the canonical package
//! list.

use crate::canonical::{
    ascending, count_edges, count_edges_to, key_lt, lemma_canonical_ids_distinct,
    lemma_count_edges_step, lemma_count_edges_to_step, lemma_key_lt_total,
    lemma_key_lt_transitive, lemma_retained_has_place,
};
use crate::error::Error;
use crate::kind::{DependencyKind, PrivateDepKind};
use crate::metadata::{
    Metadata, MetadataPackage, MetadataView, Node, NodeDepView, NodeView, Resolve,
};
use crate::package::{Package, RawVersionInfo};
use crate::text::{source_to_source_string, string_lt};
use vstd::prelude::*;

verus! {

/// The graph made of a list of packages and a resolution.
pub open spec fn graph_of(packages: Seq<MetadataPackage>, resolve: Resolve) -> MetadataView {
    MetadataView {
        packages: Seq::new(packages.len(), |i: int| packages[i]@),
        resolve: Some(resolve@),
    }
}

/// Whether package `a` stands before package `b` in the canonical list.
pub fn package_key_lt(a: &MetadataPackage, b: &MetadataPackage) -> (r: bool)
    ensures
        r == key_lt(a@, b@),
{
    if string_lt(&a.name, &b.name) {
        true
    } else if a.name != b.name {
        false
    } else if string_lt(&a.version, &b.version) {
        true
    } else if a.version != b.version {
        false
    } else {
        string_lt(&a.id, &b.id)
    }
}

/// Whether no package after place `i` carries the id of the package at `i`.
fn is_last_with_id(packages: &Vec<MetadataPackage>, resolve: &Resolve, i: usize) -> (r: bool)
    requires
        i < packages.len(),
    ensures
        r == graph_of(packages@, *resolve).is_last_with_id(i as int),
{
    let ghost g = graph_of(packages@, *resolve);
    let mut j: usize = i + 1;
    while j < packages.len()
        invariant
            i < j <= packages.len(),
            g == graph_of(packages@, *resolve),
            forall|l: int| i < l < j ==> (#[trigger] g.packages[l]).id != g.packages[i as int].id,
        decreases packages.len() - j,
    {
        if packages[j].id == packages[i].id {
            assert(g.packages[j as int].id == g.packages[i as int].id);
            return false;
        }
        j += 1;
    }
    true
}

/// The aggregate kind of every package, or nothing where the resolution
/// does not know one of them.
fn package_kinds(packages: &Vec<MetadataPackage>, resolve: &Resolve) -> (r: Option<
    Vec<PrivateDepKind>,
>)
    ensures
        match r {
            Some(kinds) => {
                &&& kinds@.len() == packages@.len()
                &&& forall|i: int|
                    0 <= i < packages@.len() ==> resolve@.knows(packages@[i].id@) && (
                    #[trigger] kinds@[i]) == resolve@.aggregate_kind(packages@[i].id@)
            },
            None => exists|i: int|
                0 <= i < packages@.len() && !resolve@.knows(
                    (#[trigger] graph_of(packages@, *resolve).packages[i]).id,
                ),
        },
{
    let mut kinds: Vec<PrivateDepKind> = Vec::new();
    let mut i: usize = 0;
    while i < packages.len()
        invariant
            i <= packages.len(),
            kinds@.len() == i,
            forall|l: int|
                0 <= l < i ==> resolve@.knows(packages@[l].id@) && (#[trigger] kinds@[l])
                    == resolve@.aggregate_kind(packages@[l].id@),
        decreases packages.len() - i,
    {
        match resolve.aggregate_kind(&packages[i].id) {
            Some(kind) => {
                kinds.push(kind);
            },
            None => {
                assert(graph_of(packages@, *resolve).packages[i as int].id == packages@[i as int].id@);
                return None;
            },
        }
        i += 1;
    }
    Some(kinds)
}

/// The packages at the places `order` stand in the order of the canonical
/// list.
pub open spec fn sorted_by_key(packages: Seq<MetadataPackage>, order: Seq<usize>) -> bool {
    &&& forall|k: int| 0 <= k < order.len() ==> (#[trigger] order[k]) < packages.len()
    &&& forall|k: int, l: int|
        0 <= k < l < order.len() ==> key_lt(
            packages[#[trigger] order[k] as int]@,
            packages[#[trigger] order[l] as int]@,
        )
}

/// Puts place `i` into a list of places that is in canonical order, so that
/// the list stays in canonical order.
fn insert_by_key(packages: &Vec<MetadataPackage>, order: &mut Vec<usize>, i: usize)
    requires
        i < packages.len(),
        sorted_by_key(packages@, old(order)@),
        forall|k: int|
            0 <= k < old(order)@.len() ==> packages@[(#[trigger] old(order)@[k]) as int].id@
                != packages@[i as int].id@,
    ensures
        sorted_by_key(packages@, final(order)@),
        exists|pos: int|
            0 <= pos <= old(order)@.len() && final(order)@ == #[trigger] old(order)@.insert(
                pos,
                i,
            ),
{
    let mut pos: usize = 0;
    while pos < order.len() && !package_key_lt(&packages[i], &packages[order[pos]])
        invariant
            i < packages.len(),
            pos <= order.len(),
            *order == *old(order),
            sorted_by_key(packages@, order@),
            forall|k: int|
                0 <= k < order@.len() ==> packages@[(#[trigger] order@[k]) as int].id@
                    != packages@[i as int].id@,
            forall|k: int|
                0 <= k < pos ==> key_lt(
                    packages@[(#[trigger] order@[k]) as int]@,
                    packages@[i as int]@,
                ),
        decreases order.len() - pos,
    {
        proof {
            lemma_key_lt_total(packages@[i as int]@, packages@[order@[pos as int] as int]@);
        }
        pos += 1;
    }
    let ghost before = order@;
    order.insert(pos, i);
    proof {
        let after = order@;
        assert(after == before.insert(pos as int, i));
        assert forall|k: int, l: int| 0 <= k < l < after.len() implies key_lt(
            packages@[#[trigger] after[k] as int]@,
            packages@[#[trigger] after[l] as int]@,
        ) by {
            if l < pos {
                assert(after[k] == before[k] && after[l] == before[l]);
            } else if l == pos {
                assert(after[k] == before[k]);
            } else if k == pos {
                assert(after[l] == before[l - 1]);
                if l - 1 > pos {
                    lemma_key_lt_transitive(
                        packages@[i as int]@,
                        packages@[before[pos as int] as int]@,
                        packages@[before[l - 1] as int]@,
                    );
                }
            } else if k < pos {
                assert(after[k] == before[k] && after[l] == before[l - 1]);
            } else {
                assert(after[k] == before[k - 1] && after[l] == before[l - 1]);
            }
        }
        assert forall|k: int| 0 <= k < after.len() implies (#[trigger] after[k])
            < packages@.len() by {
            if k < pos {
                assert(after[k] == before[k]);
            } else if k > pos {
                assert(after[k] == before[k - 1]);
            }
        }
    }
}

/// The places of the packages that are kept, in the order of the canonical
/// list.
fn surviving_order(
    packages: &Vec<MetadataPackage>,
    resolve: &Resolve,
    kinds: &Vec<PrivateDepKind>,
) -> (order: Vec<usize>)
    requires
        kinds@.len() == packages@.len(),
        forall|i: int|
            0 <= i < packages@.len() ==> (#[trigger] kinds@[i]) == resolve@.aggregate_kind(
                packages@[i].id@,
            ),
    ensures
        graph_of(packages@, *resolve).is_canonical_order(order@),
        sorted_by_key(packages@, order@),
{
    let ghost g = graph_of(packages@, *resolve);
    let mut order: Vec<usize> = Vec::new();
    let mut i: usize = 0;
    while i < packages.len()
        invariant
            i <= packages.len(),
            g == graph_of(packages@, *resolve),
            kinds@.len() == packages@.len(),
            forall|l: int|
                0 <= l < packages@.len() ==> (#[trigger] kinds@[l]) == resolve@.aggregate_kind(
                    packages@[l].id@,
                ),
            sorted_by_key(packages@, order@),
            forall|k: int|
                0 <= k < order@.len() ==> (#[trigger] order@[k]) < i && g.survives(order@[k] as int),
            forall|s: int|
                0 <= s < i && #[trigger] g.survives(s) ==> exists|k: int|
                    0 <= k < order@.len() && #[trigger] order@[k] == s,
        decreases packages.len() - i,
    {
        let ghost before = order@;
        let keep = kinds[i] != PrivateDepKind::Development && is_last_with_id(packages, resolve, i);
        assert(g.packages[i as int] == packages@[i as int]@);
        assert(keep == g.survives(i as int));
        if keep {
            proof {
                assert forall|k: int| 0 <= k < before.len() implies packages@[(
                #[trigger] before[k]) as int].id@ != packages@[i as int].id@ by {
                    let s = before[k] as int;
                    assert(g.survives(s));
                    assert(g.is_last_with_id(s));
                    assert(g.packages[i as int].id != g.packages[s].id);
                    assert(g.packages[s] == packages@[s]@);
                }
            }
            insert_by_key(packages, &mut order, i);
            proof {
                let after = order@;
                let pos = choose|pos: int|
                    0 <= pos <= before.len() && after == #[trigger] before.insert(pos, i);
                assert forall|k: int| 0 <= k < after.len() implies (#[trigger] after[k]) < i + 1
                    && g.survives(after[k] as int) by {
                    if k < pos {
                        assert(after[k] == before[k]);
                    } else if k > pos {
                        assert(after[k] == before[k - 1]);
                    }
                }
                assert forall|s: int| 0 <= s < i + 1 && #[trigger] g.survives(s) implies exists|
                    k: int,
                | 0 <= k < after.len() && #[trigger] after[k] == s by {
                    if s == i {
                        assert(after[pos] == s);
                    } else {
                        let k0 = choose|k: int| 0 <= k < before.len() && #[trigger] before[k] == s;
                        if k0 < pos {
                            assert(after[k0] == s);
                        } else {
                            assert(after[k0 + 1] == s);
                        }
                    }
                }
            }
        }
        i += 1;
    }
    proof {
        assert forall|k: int, l: int| 0 <= k < l < order@.len() implies key_lt(
            g.packages[#[trigger] order@[k] as int],
            g.packages[#[trigger] order@[l] as int],
        ) by {
            assert(g.packages[order@[k] as int] == packages@[order@[k] as int]@);
            assert(g.packages[order@[l] as int] == packages@[order@[l] as int]@);
        }
        assert forall|s: int| #[trigger] g.survives(s) implies exists|k: int|
            0 <= k < order@.len() && #[trigger] order@[k] == s by {
            assert(0 <= s < packages@.len());
        }
    }
    order
}

/// The place in `order` of the package with the given id, if one stands
/// there.
fn position_of(packages: &Vec<MetadataPackage>, order: &Vec<usize>, id: &String) -> (r: Option<
    usize,
>)
    requires
        sorted_by_key(packages@, order@),
    ensures
        match r {
            Some(k) => k < order@.len() && packages@[order@[k as int] as int].id@ == id@,
            None => forall|k: int|
                0 <= k < order@.len() ==> packages@[(#[trigger] order@[k]) as int].id@ != id@,
        },
{
    let mut k: usize = 0;
    while k < order.len()
        invariant
            k <= order.len(),
            sorted_by_key(packages@, order@),
            forall|l: int| 0 <= l < k ==> packages@[(#[trigger] order@[l]) as int].id@ != id@,
        decreases order.len() - k,
    {
        if packages[order[k]].id == *id {
            return Some(k);
        }
        k += 1;
    }
    None
}

/// The same places in ascending order.
pub fn sorted_indices(indices: &Vec<usize>) -> (sorted: Vec<usize>)
    ensures
        ascending(sorted@),
        sorted@.to_multiset() == indices@.to_multiset(),
{
    let mut sorted: Vec<usize> = Vec::new();
    let mut i: usize = 0;
    assert(indices@.take(0) =~= Seq::<usize>::empty());
    while i < indices.len()
        invariant
            i <= indices.len(),
            ascending(sorted@),
            sorted@.to_multiset() == indices@.take(i as int).to_multiset(),
        decreases indices.len() - i,
    {
        let x = indices[i];
        let mut pos: usize = 0;
        while pos < sorted.len() && sorted[pos] <= x
            invariant
                pos <= sorted.len(),
                forall|k: int| 0 <= k < pos ==> sorted@[k] <= x,
            decreases sorted.len() - pos,
        {
            pos += 1;
        }
        let ghost before = sorted@;
        sorted.insert(pos, x);
        proof {
            let after = sorted@;
            assert forall|a: int, b: int| 0 <= a <= b < after.len() implies after[a]
                <= after[b] by {
                if b < pos {
                } else if b == pos {
                } else if a == pos {
                    assert(after[b] == before[b - 1]);
                } else if a < pos {
                    assert(after[b] == before[b - 1]);
                } else {
                    assert(after[a] == before[a - 1] && after[b] == before[b - 1]);
                }
            }
            assert(indices@.take(i + 1) =~= indices@.take(i as int).push(x));
            vstd::seq_lib::to_multiset_build(indices@.take(i as int), x);
            vstd::seq_lib::to_multiset_insert(before, pos as int, x);
            assert(after == before.insert(pos as int, x));
        }
        i += 1;
    }
    assert(indices@.take(indices@.len() as int) =~= indices@);
    sorted
}

/// The id of the package that stands at place `v` of `order`.
pub open spec fn id_at(packages: Seq<MetadataPackage>, order: Seq<usize>, v: int) -> Seq<char> {
    packages[order[v] as int].id@
}

/// The edge leads, under a kind that is not `Development`, to a package
/// that the graph does not hold.
pub open spec fn loose(g: MetadataView, dep: NodeDepView) -> bool
    recommends
        g.resolve is Some,
{
    g.resolve->0.aggregate_kind(dep.pkg) != PrivateDepKind::Development && !g.has_package(dep.pkg)
}

/// Appends to `deps` the place of the target of each edge of `node`, but
/// for the edges to packages that are not kept. Says `false`, with `deps`
/// in no particular state, where an edge is loose.
fn translate_node(
    packages: &Vec<MetadataPackage>,
    resolve: &Resolve,
    order: &Vec<usize>,
    node: &Node,
    deps: &mut Vec<usize>,
) -> (ok: bool)
    requires
        graph_of(packages@, *resolve).is_canonical_order(order@),
        sorted_by_key(packages@, order@),
        forall|j: int| 0 <= j < old(deps)@.len() ==> (#[trigger] old(deps)@[j]) < order@.len(),
    ensures
        ok ==> forall|j: int| 0 <= j < final(deps)@.len() ==> (#[trigger] final(deps)@[j]) < order@.len(),
        ok ==> forall|v: usize|
            v < order@.len() ==> #[trigger] final(deps)@.to_multiset().count(v) == old(
                deps,
            )@.to_multiset().count(v) + count_edges_to(
                node@.deps,
                id_at(packages@, order@, v as int),
            ),
        ok ==> forall|e: int|
            0 <= e < node@.deps.len() ==> !loose(
                graph_of(packages@, *resolve),
                #[trigger] node@.deps[e],
            ),
        !ok ==> exists|e: int|
            0 <= e < node@.deps.len() && loose(
                graph_of(packages@, *resolve),
                #[trigger] node@.deps[e],
            ),
{
    let ghost g = graph_of(packages@, *resolve);
    let mut e: usize = 0;
    assert(node@.deps.take(0) =~= Seq::empty());
    while e < node.deps.len()
        invariant
            e <= node.deps.len(),
            g == graph_of(packages@, *resolve),
            g.is_canonical_order(order@),
            sorted_by_key(packages@, order@),
            forall|j: int| 0 <= j < deps@.len() ==> (#[trigger] deps@[j]) < order@.len(),
            forall|v: usize|
                v < order@.len() ==> #[trigger] deps@.to_multiset().count(v) == old(
                    deps,
                )@.to_multiset().count(v) + count_edges_to(
                    node@.deps.take(e as int),
                    id_at(packages@, order@, v as int),
                ),
            forall|f: int| 0 <= f < e ==> !loose(g, #[trigger] node@.deps[f]),
        decreases node.deps.len() - e,
    {
        let dep = &node.deps[e];
        let ghost before = deps@;
        assert(node@.deps[e as int] == dep@);
        proof {
            assert forall|v: usize| v < order@.len() implies g.packages[order@[v as int] as int].id
                == id_at(packages@, order@, v as int) by {}
        }
        match position_of(packages, order, &dep.pkg) {
            Some(k) => {
                deps.push(k);
                proof {
                    vstd::seq_lib::to_multiset_build(before, k);
                    assert(g.packages[order@[k as int] as int].id == dep.pkg@);
                    assert(g.has_package(dep.pkg@));
                    assert forall|v: usize| v < order@.len() implies #[trigger]
                        deps@.to_multiset().count(v) == old(deps)@.to_multiset().count(v)
                        + count_edges_to(
                        node@.deps.take(e + 1),
                        id_at(packages@, order@, v as int),
                    ) by {
                        lemma_count_edges_to_step(
                            node@.deps,
                            e as int,
                            id_at(packages@, order@, v as int),
                        );
                        if v != k {
                            lemma_canonical_ids_distinct(g, order@, v as int, k as int);
                        }
                    }
                }
            },
            None => {
                let kind = resolve.aggregate_kind(&dep.pkg);
                let dev = match kind {
                    Some(PrivateDepKind::Development) => true,
                    _ => false,
                };
                proof {
                    if kind is None {
                        let r = resolve@;
                        assert(!r.has_edge_to(dep.pkg@));
                        assert forall|t: PrivateDepKind| !r.has_tag(dep.pkg@, t) by {
                            if r.has_tag(dep.pkg@, t) {
                                let n = choose|n: int|
                                    0 <= n < r.nodes.len() && (#[trigger] r.nodes[n]).has_tag(
                                        dep.pkg@,
                                        t,
                                    );
                                assert(r.nodes[n].has_edge_to(dep.pkg@));
                            }
                        }
                    }
                    assert(dev == (resolve@.aggregate_kind(dep.pkg@)
                        == PrivateDepKind::Development));
                    if g.retains(dep.pkg@) {
                        lemma_retained_has_place(g, order@, dep.pkg@);
                    }
                }
                if !dev {
                    assert(loose(g, node@.deps[e as int]));
                    return false;
                }
                proof {
                    assert forall|v: usize| v < order@.len() implies #[trigger]
                        deps@.to_multiset().count(v) == old(deps)@.to_multiset().count(v)
                        + count_edges_to(
                        node@.deps.take(e + 1),
                        id_at(packages@, order@, v as int),
                    ) by {
                        lemma_count_edges_to_step(
                            node@.deps,
                            e as int,
                            id_at(packages@, order@, v as int),
                        );
                    }
                }
            },
        }
        e += 1;
    }
    assert(node@.deps.take(node@.deps.len() as int) =~= node@.deps);
    true
}

/// The places that the package with the id `from` refers to: one for each
/// edge that leaves a node with that id and leads to a package that is
/// kept. Nothing where one of those edges is loose.
fn translate_edges(
    packages: &Vec<MetadataPackage>,
    resolve: &Resolve,
    order: &Vec<usize>,
    from: &String,
) -> (r: Option<Vec<usize>>)
    requires
        graph_of(packages@, *resolve).is_canonical_order(order@),
        sorted_by_key(packages@, order@),
    ensures
        match r {
            Some(deps) => {
                &&& forall|j: int| 0 <= j < deps@.len() ==> (#[trigger] deps@[j]) < order@.len()
                &&& forall|v: usize|
                    v < order@.len() ==> #[trigger] deps@.to_multiset().count(v) == count_edges(
                        resolve@.nodes,
                        from@,
                        id_at(packages@, order@, v as int),
                    )
                &&& forall|n: int, e: int|
                    0 <= n < resolve@.nodes.len() && resolve@.nodes[n].id == from@ && 0 <= e
                        < resolve@.nodes[n].deps.len() ==> !loose(
                        graph_of(packages@, *resolve),
                        #[trigger] resolve@.nodes[n].deps[e],
                    )
            },
            None => exists|n: int, e: int|
                0 <= n < resolve@.nodes.len() && resolve@.nodes[n].id == from@ && 0 <= e
                    < resolve@.nodes[n].deps.len() && loose(
                    graph_of(packages@, *resolve),
                    #[trigger] resolve@.nodes[n].deps[e],
                ),
        },
{
    let ghost g = graph_of(packages@, *resolve);
    let mut deps: Vec<usize> = Vec::new();
    let mut n: usize = 0;
    assert(resolve@.nodes.take(0) =~= Seq::empty());
    assert(forall|v: usize| deps@.to_multiset().count(v) == 0) by {
        broadcast use vstd::seq_lib::group_to_multiset_ensures;
        broadcast use vstd::multiset::group_multiset_axioms;

        assert(deps@.to_multiset().len() == 0);
    }
    while n < resolve.nodes.len()
        invariant
            n <= resolve.nodes.len(),
            g == graph_of(packages@, *resolve),
            g.is_canonical_order(order@),
            sorted_by_key(packages@, order@),
            forall|j: int| 0 <= j < deps@.len() ==> (#[trigger] deps@[j]) < order@.len(),
            forall|v: usize|
                v < order@.len() ==> #[trigger] deps@.to_multiset().count(v) == count_edges(
                    resolve@.nodes.take(n as int),
                    from@,
                    id_at(packages@, order@, v as int),
                ),
            forall|m: int, e: int|
                0 <= m < n && resolve@.nodes[m].id == from@ && 0 <= e
                    < resolve@.nodes[m].deps.len() ==> !loose(
                    g,
                    #[trigger] resolve@.nodes[m].deps[e],
                ),
        decreases resolve.nodes.len() - n,
    {
        let node = &resolve.nodes[n];
        assert(resolve@.nodes[n as int] == node@);
        let ghost before = deps@;
        if node.id == *from {
            let ok = translate_node(packages, resolve, order, node, &mut deps);
            if !ok {
                return None;
            }
        }
        proof {
            assert forall|v: usize| v < order@.len() implies #[trigger] deps@.to_multiset().count(v)
                == count_edges(
                resolve@.nodes.take(n + 1),
                from@,
                id_at(packages@, order@, v as int),
            ) by {
                lemma_count_edges_step(
                    resolve@.nodes,
                    n as int,
                    from@,
                    id_at(packages@, order@, v as int),
                );
                assert(before.to_multiset().count(v) == count_edges(
                    resolve@.nodes.take(n as int),
                    from@,
                    id_at(packages@, order@, v as int),
                ));
            }
        }
        n += 1;
    }
    assert(resolve@.nodes.take(resolve@.nodes.len() as int) =~= resolve@.nodes);
    Some(deps)
}

impl RawVersionInfo {
    /// Normalizes a resolved dependency graph into the canonical package
    /// list.
    ///
    /// Every package gets the strongest kind found on the edges that lead to
    /// it, the root `Runtime`. Packages whose kind is `Development` are
    /// dropped, the others put in order by name, version and id. Each package
    /// then refers to the packages it depends on, as far as they are kept, by
    /// their places in that order, in ascending order.
    ///
    /// A graph that cannot be normalized is refused as a whole.
    pub fn from_metadata(metadata: &Metadata) -> (r: Result<RawVersionInfo, Error>)
        ensures
            r is Err <==> metadata@.inconsistent(),
            r matches Err(e) ==> e == Error::InconsistentGraph,
            r matches Ok(info) ==> metadata@.is_normal_form(info@) && info.well_formed(),
    {
        let resolve = match &metadata.resolve {
            Some(resolve) => resolve,
            None => {
                return Err(Error::InconsistentGraph);
            },
        };
        if resolve.root.is_none() {
            return Err(Error::InconsistentGraph);
        }
        let packages = &metadata.packages;
        let ghost g = metadata@;
        assert(g == graph_of(packages@, *resolve)) by {
            assert(g.packages =~= graph_of(packages@, *resolve).packages);
        }
        let kinds = match package_kinds(packages, resolve) {
            Some(kinds) => kinds,
            None => {
                return Err(Error::InconsistentGraph);
            },
        };
        proof {
            assert forall|i: int| 0 <= i < g.packages.len() implies resolve@.knows(
                (#[trigger] g.packages[i]).id,
            ) by {
                assert(kinds@[i] == resolve@.aggregate_kind(packages@[i].id@));
            }
        }
        let order = surviving_order(packages, resolve, &kinds);
        let mut list: Vec<Package> = Vec::new();
        let mut k: usize = 0;
        while k < order.len()
            invariant
                k <= order.len(),
                g == metadata@,
                g == graph_of(packages@, *resolve),
                kinds@.len() == packages@.len(),
                forall|i: int|
                    0 <= i < packages@.len() ==> (#[trigger] kinds@[i])
                        == resolve@.aggregate_kind(packages@[i].id@),
                forall|i: int|
                    0 <= i < g.packages.len() ==> resolve@.knows((#[trigger] g.packages[i]).id),
                g.is_canonical_order(order@),
                sorted_by_key(packages@, order@),
                list@.len() == k,
                forall|l: int| 0 <= l < k ==> g.is_package_at(order@, l, (#[trigger] list@[l])@),
                forall|l: int, n: int, e: int|
                    #![trigger id_at(packages@, order@, l), resolve@.nodes[n].deps[e]]
                    0 <= l < k && 0 <= n < resolve@.nodes.len() && resolve@.nodes[n].id == id_at(
                        packages@,
                        order@,
                        l,
                    ) && 0 <= e < resolve@.nodes[n].deps.len() ==> !loose(
                        g,
                        resolve@.nodes[n].deps[e],
                    ),
            decreases order.len() - k,
        {
            let place = order[k];
            let package = &packages[place];
            assert(g.survives(place as int));
            assert(g.packages[place as int] == package@);
            let translated = match translate_edges(packages, resolve, &order, &package.id) {
                Some(translated) => translated,
                None => {
                    proof {
                        let (n, e) = choose|n: int, e: int|
                            0 <= n < resolve@.nodes.len() && resolve@.nodes[n].id == package.id@
                                && 0 <= e < resolve@.nodes[n].deps.len() && loose(
                                g,
                                #[trigger] resolve@.nodes[n].deps[e],
                            );
                        assert(g.has_package(package.id@));
                        assert(g.dangling(n, e));
                    }
                    return Err(Error::InconsistentGraph);
                },
            };
            let dependencies = sorted_indices(&translated);
            let entry = Package {
                name: package.name.clone(),
                version: package.version.clone(),
                source: source_to_source_string(&package.source),
                kind: DependencyKind::from(kinds[place]),
                dependencies,
            };
            proof {
                assert forall|j: int| 0 <= j < entry@.dependencies.len() implies (
                #[trigger] entry@.dependencies[j]) < order@.len() by {
                    broadcast use vstd::seq_lib::group_to_multiset_ensures;

                    let x = entry@.dependencies[j];
                    assert(entry@.dependencies.contains(x));
                    assert(translated@.to_multiset().count(x) > 0);
                    assert(translated@.contains(x));
                }
                assert forall|v: usize| v < order@.len() implies #[trigger]
                    entry@.dependencies.to_multiset().count(v) == count_edges(
                    resolve@.nodes,
                    package@.id,
                    g.packages[order@[v as int] as int].id,
                ) by {
                    assert(g.packages[order@[v as int] as int].id == id_at(
                        packages@,
                        order@,
                        v as int,
                    ));
                }
                assert(g.is_package_at(order@, k as int, entry@));
            }
            let ghost before = list@;
            list.push(entry);
            proof {
                assert forall|l: int| 0 <= l < k + 1 implies g.is_package_at(
                    order@,
                    l,
                    (#[trigger] list@[l])@,
                ) by {
                    if l < k {
                        assert(list@[l] == before[l]);
                    }
                }
            }
            k += 1;
        }
        let info = RawVersionInfo { packages: list };
        proof {
            assert forall|n: int, e: int| !#[trigger] g.dangling(n, e) by {
                if g.dangling(n, e) {
                    let from = resolve@.nodes[n].id;
                    lemma_retained_has_place(g, order@, from);
                    let l = choose|l: int|
                        0 <= l < order@.len() && g.packages[#[trigger] order@[l] as int].id == from;
                    assert(id_at(packages@, order@, l) == from);
                    assert(!loose(g, resolve@.nodes[n].deps[e]));
                }
            }
            assert(!g.inconsistent());
            assert(info@.len() == order@.len());
            assert forall|l: int| 0 <= l < info@.len() implies g.is_package_at(
                order@,
                l,
                #[trigger] info@[l],
            ) by {
                assert(info@[l] == list@[l]@);
            }
            assert(g.is_normal_form_by(order@, info@));
        }
        Ok(info)
    }
}

} // verus!
