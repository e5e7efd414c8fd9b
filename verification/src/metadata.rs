//! The resolved dependency graph that a build system reports, as plain
//! values: the packages it knows, and the edges of its resolution, each with
//! the kinds under which one package depends on another.

use crate::kind::{strongest, strongest_dep_kind, PrivateDepKind};
use vstd::prelude::*;

verus! {

/// One package of the graph. `id` tells packages apart; `source` is the
/// origin as the build system writes it, absent for a local package.
#[derive(Debug, PartialEq, Eq, Clone)]
pub struct MetadataPackage {
    pub id: String,
    pub name: String,
    pub version: String,
    pub source: Option<String>,
}

/// One edge of the resolution: the package depended upon, and the kinds
/// under which it is.
#[derive(Debug, PartialEq, Eq, Clone)]
pub struct NodeDep {
    pub pkg: String,
    pub dep_kinds: Vec<PrivateDepKind>,
}

/// The edges that leave one package.
#[derive(Debug, PartialEq, Eq, Clone)]
pub struct Node {
    pub id: String,
    pub deps: Vec<NodeDep>,
}

/// The resolution: every package's outgoing edges, and the package the
/// resolution started from.
#[derive(Debug, PartialEq, Eq, Clone)]
pub struct Resolve {
    pub nodes: Vec<Node>,
    pub root: Option<String>,
}

/// A resolved dependency graph.
#[derive(Debug, PartialEq, Eq, Clone)]
pub struct Metadata {
    pub packages: Vec<MetadataPackage>,
    pub resolve: Option<Resolve>,
}

/// A package, with its strings as sequences of characters.
pub struct MetadataPackageView {
    pub id: Seq<char>,
    pub name: Seq<char>,
    pub version: Seq<char>,
    pub source: Option<Seq<char>>,
}

/// An edge, with its strings as sequences of characters.
pub struct NodeDepView {
    pub pkg: Seq<char>,
    pub dep_kinds: Seq<PrivateDepKind>,
}

/// The outgoing edges of one package.
pub struct NodeView {
    pub id: Seq<char>,
    pub deps: Seq<NodeDepView>,
}

/// The resolution.
pub struct ResolveView {
    pub nodes: Seq<NodeView>,
    pub root: Option<Seq<char>>,
}

/// The graph.
pub struct MetadataView {
    pub packages: Seq<MetadataPackageView>,
    pub resolve: Option<ResolveView>,
}

impl View for MetadataPackage {
    type V = MetadataPackageView;

    open spec fn view(&self) -> MetadataPackageView {
        MetadataPackageView {
            id: self.id@,
            name: self.name@,
            version: self.version@,
            source: match self.source {
                Some(s) => Some(s@),
                None => None,
            },
        }
    }
}

impl View for NodeDep {
    type V = NodeDepView;

    open spec fn view(&self) -> NodeDepView {
        NodeDepView { pkg: self.pkg@, dep_kinds: self.dep_kinds@ }
    }
}

impl View for Node {
    type V = NodeView;

    open spec fn view(&self) -> NodeView {
        NodeView { id: self.id@, deps: Seq::new(self.deps@.len(), |i: int| self.deps@[i]@) }
    }
}

impl View for Resolve {
    type V = ResolveView;

    open spec fn view(&self) -> ResolveView {
        ResolveView {
            nodes: Seq::new(self.nodes@.len(), |i: int| self.nodes@[i]@),
            root: match self.root {
                Some(s) => Some(s@),
                None => None,
            },
        }
    }
}

impl View for Metadata {
    type V = MetadataView;

    open spec fn view(&self) -> MetadataView {
        MetadataView {
            packages: Seq::new(self.packages@.len(), |i: int| self.packages@[i]@),
            resolve: match self.resolve {
                Some(r) => Some(r@),
                None => None,
            },
        }
    }
}

impl NodeView {
    /// Some edge of this node leads to `id`.
    pub open spec fn has_edge_to(self, id: Seq<char>) -> bool {
        exists|e: int| 0 <= e < self.deps.len() && (#[trigger] self.deps[e]).pkg == id
    }

    /// Some edge of this node leads to `id` under the kind `kind`.
    pub open spec fn has_tag(self, id: Seq<char>, kind: PrivateDepKind) -> bool {
        exists|e: int|
            0 <= e < self.deps.len() && (#[trigger] self.deps[e]).pkg == id
                && self.deps[e].dep_kinds.contains(kind)
    }
}

impl ResolveView {
    /// Some edge of the resolution leads to `id`.
    pub open spec fn has_edge_to(self, id: Seq<char>) -> bool {
        exists|n: int| 0 <= n < self.nodes.len() && (#[trigger] self.nodes[n]).has_edge_to(id)
    }

    /// Some edge of the resolution leads to `id` under the kind `kind`.
    pub open spec fn has_tag(self, id: Seq<char>, kind: PrivateDepKind) -> bool {
        exists|n: int| 0 <= n < self.nodes.len() && (#[trigger] self.nodes[n]).has_tag(id, kind)
    }

    /// The resolution says how `id` is depended upon: it is the root, or an
    /// edge leads to it.
    pub open spec fn knows(self, id: Seq<char>) -> bool {
        self.root == Some(id) || self.has_edge_to(id)
    }

    /// The aggregate kind of a package: `Runtime` for the root; else the
    /// strongest kind found on any edge that leads to the package; `Runtime`
    /// where those edges carry no kind at all.
    pub open spec fn aggregate_kind(self, id: Seq<char>) -> PrivateDepKind {
        if self.root == Some(id) || self.has_tag(id, PrivateDepKind::Runtime) {
            PrivateDepKind::Runtime
        } else if self.has_tag(id, PrivateDepKind::Build) {
            PrivateDepKind::Build
        } else if self.has_tag(id, PrivateDepKind::Development) {
            PrivateDepKind::Development
        } else {
            PrivateDepKind::Runtime
        }
    }
}

impl NodeView {
    /// One of the first `e` edges of this node leads to `id`.
    pub open spec fn has_edge_before(self, e: int, id: Seq<char>) -> bool {
        exists|f: int| 0 <= f < e && (#[trigger] self.deps[f]).pkg == id
    }

    /// One of the first `e` edges of this node leads to `id` under `kind`.
    pub open spec fn has_tag_before(self, e: int, id: Seq<char>, kind: PrivateDepKind) -> bool {
        exists|f: int|
            0 <= f < e && (#[trigger] self.deps[f]).pkg == id && self.deps[f].dep_kinds.contains(
                kind,
            )
    }
}

impl ResolveView {
    /// An edge of one of the first `n` nodes leads to `id`.
    pub open spec fn has_edge_before(self, n: int, id: Seq<char>) -> bool {
        exists|m: int| 0 <= m < n && (#[trigger] self.nodes[m]).has_edge_to(id)
    }

    /// An edge of one of the first `n` nodes leads to `id` under `kind`.
    pub open spec fn has_tag_before(self, n: int, id: Seq<char>, kind: PrivateDepKind) -> bool {
        exists|m: int| 0 <= m < n && (#[trigger] self.nodes[m]).has_tag(id, kind)
    }
}

impl Resolve {
    /// Gathers the kinds of every edge that leads to `id` and picks the
    /// strongest. The root is a runtime dependency whatever leads to it. A
    /// package that is neither the root nor the target of an edge has no
    /// aggregate kind.
    pub fn aggregate_kind(&self, id: &String) -> (kind: Option<PrivateDepKind>)
        ensures
            kind == (if self@.knows(id@) {
                Some(self@.aggregate_kind(id@))
            } else {
                None
            }),
    {
        let mut gathered: Vec<PrivateDepKind> = Vec::new();
        let mut found = false;
        let mut n: usize = 0;
        while n < self.nodes.len()
            invariant
                n <= self.nodes.len(),
                found == self@.has_edge_before(n as int, id@),
                forall|k: PrivateDepKind| #[trigger]
                    gathered@.contains(k) == self@.has_tag_before(n as int, id@, k),
            decreases self.nodes.len() - n,
        {
            let node = &self.nodes[n];
            let mut e: usize = 0;
            while e < node.deps.len()
                invariant
                    n < self.nodes.len(),
                    node == self.nodes@[n as int],
                    e <= node.deps.len(),
                    found == (self@.has_edge_before(n as int, id@) || node@.has_edge_before(
                        e as int,
                        id@,
                    )),
                    forall|k: PrivateDepKind| #[trigger]
                        gathered@.contains(k) == (self@.has_tag_before(n as int, id@, k)
                            || node@.has_tag_before(e as int, id@, k)),
                decreases node.deps.len() - e,
            {
                let dep = &node.deps[e];
                let ghost before = gathered@;
                if dep.pkg == *id {
                    found = true;
                    gathered.extend_from_slice(dep.dep_kinds.as_slice());
                }
                proof {
                    assert(node@.deps[e as int] == dep@);
                    assert forall|k: PrivateDepKind| #[trigger]
                        gathered@.contains(k) == (self@.has_tag_before(n as int, id@, k)
                            || node@.has_tag_before(e + 1, id@, k)) by {
                        if dep.pkg@ == id@ {
                            assert(gathered@ == before + dep.dep_kinds@);
                            if before.contains(k) {
                                let j = choose|j: int| 0 <= j < before.len() && before[j] == k;
                                assert(gathered@[j] == k);
                            }
                            if dep.dep_kinds@.contains(k) {
                                let j = choose|j: int|
                                    0 <= j < dep.dep_kinds@.len() && dep.dep_kinds@[j] == k;
                                assert(gathered@[before.len() + j] == k);
                            }
                            if gathered@.contains(k) {
                                let j = choose|j: int| 0 <= j < gathered@.len() && gathered@[j] == k;
                                if j < before.len() {
                                    assert(before[j] == k);
                                } else {
                                    assert(dep.dep_kinds@[j - before.len()] == k);
                                }
                            }
                        }
                        if node@.has_tag_before(e + 1, id@, k) && !node@.has_tag_before(
                            e as int,
                            id@,
                            k,
                        ) {
                            let f = choose|f: int|
                                0 <= f < e + 1 && (#[trigger] node@.deps[f]).pkg == id@
                                    && node@.deps[f].dep_kinds.contains(k);
                            assert(f == e);
                        }
                    }
                    if node@.has_edge_before(e + 1, id@) && !node@.has_edge_before(e as int, id@) {
                        let f = choose|f: int|
                            0 <= f < e + 1 && (#[trigger] node@.deps[f]).pkg == id@;
                        assert(f == e);
                    }
                }
                e += 1;
            }
            proof {
                let r = self@;
                assert(r.nodes[n as int] == node@);
                assert(node@.has_edge_before(node@.deps.len() as int, id@) == node@.has_edge_to(id@));
                assert forall|k: PrivateDepKind|
                    node@.has_tag_before(node@.deps.len() as int, id@, k) == node@.has_tag(
                        id@,
                        k,
                    ) by {}
                assert forall|k: PrivateDepKind| #[trigger]
                    gathered@.contains(k) == r.has_tag_before(n + 1, id@, k) by {
                    if r.has_tag_before(n + 1, id@, k) && !r.has_tag_before(n as int, id@, k) {
                        let m = choose|m: int|
                            0 <= m < n + 1 && (#[trigger] r.nodes[m]).has_tag(id@, k);
                        assert(m == n);
                    }
                }
                if r.has_edge_before(n + 1, id@) && !r.has_edge_before(n as int, id@) {
                    let m = choose|m: int| 0 <= m < n + 1 && (#[trigger] r.nodes[m]).has_edge_to(id@);
                    assert(m == n);
                }
            }
            n += 1;
        }
        proof {
            let r = self@;
            assert(r.has_edge_before(r.nodes.len() as int, id@) == r.has_edge_to(id@));
            assert forall|k: PrivateDepKind|
                r.has_tag_before(r.nodes.len() as int, id@, k) == r.has_tag(id@, k) by {}
        }
        let is_root = match &self.root {
            Some(root) => *root == *id,
            None => false,
        };
        assert(is_root == (self@.root == Some(id@)));
        if is_root {
            Some(PrivateDepKind::Runtime)
        } else if found {
            proof {
                let r = self@;
                assert(gathered@.contains(PrivateDepKind::Runtime) == r.has_tag(
                    id@,
                    PrivateDepKind::Runtime,
                ));
                assert(gathered@.contains(PrivateDepKind::Build) == r.has_tag(
                    id@,
                    PrivateDepKind::Build,
                ));
                assert(gathered@.contains(PrivateDepKind::Development) == r.has_tag(
                    id@,
                    PrivateDepKind::Development,
                ));
                if gathered@.len() > 0 {
                    assert(gathered@.contains(gathered@[0]));
                }
            }
            Some(strongest_dep_kind(gathered.as_slice()))
        } else {
            None
        }
    }
}

} // verus!
