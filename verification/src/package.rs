//! The canonical model: an ordered list of packages that refer to one
//! another by their place in the list.

use crate::kind::DependencyKind;
use vstd::prelude::*;

verus! {

/// One package of the canonical model.
///
/// `dependencies` holds places in the list that the package belongs to.
#[derive(Debug, PartialEq, Eq, PartialOrd, Ord, Clone)]
pub struct Package {
    pub name: String,
    pub version: String,
    pub source: String,
    pub kind: DependencyKind,
    pub dependencies: Vec<usize>,
}

/// The canonical model of one binary or of one resolved graph.
#[derive(Debug, PartialEq, Eq, PartialOrd, Ord, Clone)]
pub struct RawVersionInfo {
    pub packages: Vec<Package>,
}

/// A package, with its strings and its list as sequences.
pub struct PackageView {
    pub name: Seq<char>,
    pub version: Seq<char>,
    pub source: Seq<char>,
    pub kind: DependencyKind,
    pub dependencies: Seq<usize>,
}

impl View for Package {
    type V = PackageView;

    open spec fn view(&self) -> PackageView {
        PackageView {
            name: self.name@,
            version: self.version@,
            source: self.source@,
            kind: self.kind,
            dependencies: self.dependencies@,
        }
    }
}

impl View for RawVersionInfo {
    type V = Seq<PackageView>;

    open spec fn view(&self) -> Seq<PackageView> {
        Seq::new(self.packages@.len(), |i: int| self.packages@[i]@)
    }
}

/// Every dependency of every package is a place in the list.
pub open spec fn indices_in_range(packages: Seq<PackageView>) -> bool {
    forall|i: int, j: int|
        0 <= i < packages.len() && 0 <= j < packages[i].dependencies.len() ==> (
        #[trigger] packages[i].dependencies[j]) < packages.len()
}

impl RawVersionInfo {
    /// The invariant of the model: dependencies refer to packages of the
    /// same list.
    pub open spec fn well_formed(&self) -> bool {
        indices_in_range(self@)
    }

    /// Whether every dependency refers into the list, as the model requires.
    pub fn is_well_formed(&self) -> (ok: bool)
        ensures
            ok == self.well_formed(),
    {
        let n = self.packages.len();
        let mut i: usize = 0;
        while i < n
            invariant
                n == self.packages.len(),
                i <= n,
                forall|a: int, b: int|
                    0 <= a < i && 0 <= b < self@[a].dependencies.len() ==> (
                    #[trigger] self@[a].dependencies[b]) < n,
            decreases n - i,
        {
            let deps = &self.packages[i].dependencies;
            let mut j: usize = 0;
            while j < deps.len()
                invariant
                    i < n,
                    n == self.packages.len(),
                    deps@ == self@[i as int].dependencies,
                    j <= deps.len(),
                    forall|b: int| 0 <= b < j ==> (#[trigger] deps@[b]) < n,
                decreases deps.len() - j,
            {
                if deps[j] >= n {
                    assert(!(self@[i as int].dependencies[j as int] < self@.len()));
                    return false;
                }
                j += 1;
            }
            i += 1;
        }
        true
    }
}

} // verus!
