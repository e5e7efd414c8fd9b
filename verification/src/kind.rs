//! How strongly a package is depended upon.

use vstd::prelude::*;
use vstd::std_specs::cmp::PartialEqSpec;

verus! {

/// The strength of a dependency as it is recorded in the canonical model.
///
/// `Build` is the weaker of the two, `Runtime` the stronger and the default.
#[derive(Debug, Eq, PartialOrd, Ord, Copy, Clone, Hash)]
pub enum DependencyKind {
    Build,
    Runtime,
}

/// The strength of one edge of a resolved dependency graph.
///
/// Ordered from weakest to strongest: `Development`, `Build`, `Runtime`.
/// `Development` never reaches the canonical model.
#[derive(Debug, PartialEq, Eq, Structural, PartialOrd, Ord, Copy, Clone, Hash)]
pub enum PrivateDepKind {
    Development,
    Build,
    Runtime,
}

impl PartialEq for DependencyKind {
    fn eq(&self, other: &DependencyKind) -> (r: bool) {
        self.rank() == other.rank()
    }
}

impl vstd::std_specs::cmp::PartialEqSpecImpl for DependencyKind {
    open spec fn obeys_eq_spec() -> bool {
        true
    }

    open spec fn eq_spec(&self, other: &DependencyKind) -> bool {
        *self == *other
    }
}

impl DependencyKind {
    /// The place of a kind in the order of strength: a stronger kind has a
    /// higher rank.
    pub open spec fn spec_rank(self) -> nat {
        match self {
            DependencyKind::Build => 1,
            DependencyKind::Runtime => 2,
        }
    }

    /// The rank by which kinds are compared; it agrees with the rank of the
    /// edge kind of the same name.
    pub fn rank(&self) -> (r: u8)
        ensures
            r == self.spec_rank(),
    {
        match self {
            DependencyKind::Build => 1,
            DependencyKind::Runtime => 2,
        }
    }
}

impl Default for DependencyKind {
    fn default() -> (kind: DependencyKind)
        ensures
            kind == DependencyKind::Runtime,
    {
        DependencyKind::Runtime
    }
}

/// Whether a value equals the default of its type; such a value is left out
/// when a package is written down.
pub fn is_default<T: Default + PartialEq>(value: &T) -> (r: bool)
    ensures
        T::obeys_eq_spec() ==> exists|d: T| #[trigger]
            call_ensures(T::default, (), d) && r == value.eq_spec(&d),
{
    let default_value = T::default();
    value == &default_value
}

impl PrivateDepKind {
    /// The place of a kind in the order of strength: `Development` is the
    /// weakest, `Runtime` the strongest.
    pub open spec fn spec_rank(self) -> nat {
        match self {
            PrivateDepKind::Development => 0,
            PrivateDepKind::Build => 1,
            PrivateDepKind::Runtime => 2,
        }
    }

    /// The rank by which kinds are compared.
    pub fn rank(&self) -> (r: u8)
        ensures
            r == self.spec_rank(),
    {
        match self {
            PrivateDepKind::Development => 0,
            PrivateDepKind::Build => 1,
            PrivateDepKind::Runtime => 2,
        }
    }

    /// The kind of the canonical model that stands for an edge kind.
    /// `Development` has none; there the result is left open.
    pub open spec fn to_public(self) -> DependencyKind
        recommends
            self != PrivateDepKind::Development,
    {
        match self {
            PrivateDepKind::Development => arbitrary(),
            PrivateDepKind::Build => DependencyKind::Build,
            PrivateDepKind::Runtime => DependencyKind::Runtime,
        }
    }
}

impl DependencyKind {
    /// Converts an edge kind that survived normalization. A development
    /// dependency has no place in the canonical model, so it is not accepted.
    pub fn from(priv_kind: PrivateDepKind) -> (kind: DependencyKind)
        requires
            priv_kind != PrivateDepKind::Development,
        ensures
            kind == priv_kind.to_public(),
            kind.spec_rank() == priv_kind.spec_rank(),
    {
        match priv_kind {
            PrivateDepKind::Build => DependencyKind::Build,
            _ => DependencyKind::Runtime,
        }
    }
}

/// The strongest of the kinds gathered for one package. Where none was
/// gathered the package counts as a runtime dependency.
pub open spec fn strongest(kinds: Seq<PrivateDepKind>) -> PrivateDepKind {
    if kinds.len() == 0 || kinds.contains(PrivateDepKind::Runtime) {
        PrivateDepKind::Runtime
    } else if kinds.contains(PrivateDepKind::Build) {
        PrivateDepKind::Build
    } else {
        PrivateDepKind::Development
    }
}

/// Picks the strongest kind of a list, `Runtime` for an empty list.
pub fn strongest_dep_kind(deps: &[PrivateDepKind]) -> (best: PrivateDepKind)
    ensures
        best == strongest(deps@),
{
    let mut best = PrivateDepKind::Development;
    let mut i: usize = 0;
    while i < deps.len()
        invariant
            i <= deps.len(),
            forall|j: int| 0 <= j < i ==> deps@[j].spec_rank() <= best.spec_rank(),
            i == 0 ==> best == PrivateDepKind::Development,
            i > 0 ==> exists|j: int| 0 <= j < i && deps@[j] == best,
        decreases deps.len() - i,
    {
        if deps[i].rank() > best.rank() {
            best = deps[i];
        }
        i += 1;
    }
    if deps.len() == 0 {
        PrivateDepKind::Runtime
    } else {
        best
    }
}

/// Kinds are told apart by their ranks, so the ranks put them in a total
/// order; a kind of the canonical model has the rank of the edge kind it
/// stands for.
pub proof fn lemma_ranks_order_kinds(a: PrivateDepKind, b: PrivateDepKind)
    ensures
        a.spec_rank() == b.spec_rank() <==> a == b,
        a != PrivateDepKind::Development ==> a.to_public().spec_rank() == a.spec_rank(),
        PrivateDepKind::Development.spec_rank() < PrivateDepKind::Build.spec_rank()
            < PrivateDepKind::Runtime.spec_rank(),
{
}

/// Strongest wins: the kind picked for a list that is not empty occurs in the
/// list, and no kind in the list outranks it.
pub proof fn lemma_strongest_is_maximum(kinds: Seq<PrivateDepKind>)
    requires
        kinds.len() > 0,
    ensures
        kinds.contains(strongest(kinds)),
        forall|i: int| 0 <= i < kinds.len() ==> kinds[i].spec_rank() <= strongest(kinds).spec_rank(),
{
    if !kinds.contains(PrivateDepKind::Runtime) && !kinds.contains(PrivateDepKind::Build) {
        assert(kinds[0] == PrivateDepKind::Development);
    }
}

} // verus!
