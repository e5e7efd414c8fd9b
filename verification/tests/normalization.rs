use audit_info::PrivateDepKind::{Build, Development, Runtime};
use audit_info::{
    DependencyKind, Error, Metadata, MetadataPackage, Node, NodeDep, Package, PrivateDepKind,
    RawVersionInfo, Resolve,
};

fn package(id: &str, name: &str, version: &str, source: Option<&str>) -> MetadataPackage {
    MetadataPackage {
        id: id.to_owned(),
        name: name.to_owned(),
        version: version.to_owned(),
        source: source.map(|s| s.to_owned()),
    }
}

fn edge(to: &str, kinds: &[PrivateDepKind]) -> NodeDep {
    NodeDep { pkg: to.to_owned(), dep_kinds: kinds.to_vec() }
}

fn node(id: &str, deps: Vec<NodeDep>) -> Node {
    Node { id: id.to_owned(), deps }
}

fn graph(packages: Vec<MetadataPackage>, nodes: Vec<Node>, root: &str) -> Metadata {
    Metadata { packages, resolve: Some(Resolve { nodes, root: Some(root.to_owned()) }) }
}

fn entry(
    name: &str,
    version: &str,
    source: &str,
    kind: DependencyKind,
    dependencies: Vec<usize>,
) -> Package {
    Package {
        name: name.to_owned(),
        version: version.to_owned(),
        source: source.to_owned(),
        kind,
        dependencies,
    }
}

const REGISTRY: &str = "registry+https://github.com/rust-lang/crates.io-index";


/// Root R, with a build edge to A and a development edge to B; A has a
/// runtime edge to B.
fn mixed_paths() -> Metadata {
    graph(
        vec![
            package("r 1.0.0", "r", "1.0.0", None),
            package("b 0.2.0", "b", "0.2.0", Some(REGISTRY)),
            package("a 0.1.0", "a", "0.1.0", Some(REGISTRY)),
        ],
        vec![
            node("r 1.0.0", vec![edge("a 0.1.0", &[Build]), edge("b 0.2.0", &[Development])]),
            node("a 0.1.0", vec![edge("b 0.2.0", &[Runtime])]),
            node("b 0.2.0", vec![]),
        ],
        "r 1.0.0",
    )
}

#[test]
fn mixed_paths_keep_the_strongest_kind() {
    let info = RawVersionInfo::from_metadata(&mixed_paths()).unwrap();
    assert_eq!(
        info.packages,
        vec![
            entry("a", "0.1.0", "registry", DependencyKind::Build, vec![1]),
            entry("b", "0.2.0", "registry", DependencyKind::Runtime, vec![]),
            entry("r", "1.0.0", "local", DependencyKind::Runtime, vec![0, 1]),
        ]
    );
    assert!(info.is_well_formed());
}

#[test]
fn development_only_packages_are_dropped() {
    let metadata = graph(
        vec![
            package("r", "r", "1.0.0", None),
            package("d", "d", "1.0.0", Some(REGISTRY)),
            package("x", "x", "1.0.0", Some(REGISTRY)),
        ],
        vec![
            node("r", vec![edge("d", &[Development]), edge("x", &[Runtime])]),
            node("d", vec![edge("x", &[Runtime])]),
            node("x", vec![]),
        ],
        "r",
    );
    let info = RawVersionInfo::from_metadata(&metadata).unwrap();
    assert_eq!(
        info.packages,
        vec![
            entry("r", "1.0.0", "local", DependencyKind::Runtime, vec![1]),
            entry("x", "1.0.0", "registry", DependencyKind::Runtime, vec![]),
        ]
    );
}

#[test]
fn edges_of_a_dropped_package_still_count_for_their_targets() {
    let metadata = graph(
        vec![
            package("r", "r", "1.0.0", None),
            package("d", "d", "1.0.0", Some(REGISTRY)),
            package("e", "e", "1.0.0", Some(REGISTRY)),
        ],
        vec![node("r", vec![edge("d", &[Development])]), node("d", vec![edge("e", &[Build])])],
        "r",
    );
    let info = RawVersionInfo::from_metadata(&metadata).unwrap();
    assert_eq!(
        info.packages,
        vec![
            entry("e", "1.0.0", "registry", DependencyKind::Build, vec![]),
            entry("r", "1.0.0", "local", DependencyKind::Runtime, vec![]),
        ]
    );
}

#[test]
fn build_and_runtime_resolve_to_runtime() {
    let metadata = graph(
        vec![
            package("r", "r", "1.0.0", None),
            package("m", "m", "1.0.0", Some(REGISTRY)),
            package("n", "n", "1.0.0", Some(REGISTRY)),
        ],
        vec![
            node("r", vec![edge("m", &[Build]), edge("n", &[Runtime])]),
            node("n", vec![edge("m", &[Runtime])]),
        ],
        "r",
    );
    let info = RawVersionInfo::from_metadata(&metadata).unwrap();
    assert_eq!(info.packages[0].name, "m");
    assert_eq!(info.packages[0].kind, DependencyKind::Runtime);
    let both_on_one_edge = graph(
        vec![package("r", "r", "1.0.0", None), package("m", "m", "1.0.0", Some(REGISTRY))],
        vec![node("r", vec![edge("m", &[Development, Build, Runtime])])],
        "r",
    );
    let info = RawVersionInfo::from_metadata(&both_on_one_edge).unwrap();
    assert_eq!(info.packages[0].kind, DependencyKind::Runtime);
}

#[test]
fn build_and_development_resolve_to_build() {
    let metadata = graph(
        vec![package("r", "r", "1.0.0", None), package("m", "m", "1.0.0", Some(REGISTRY))],
        vec![node("r", vec![edge("m", &[Development]), edge("m", &[Build])])],
        "r",
    );
    let info = RawVersionInfo::from_metadata(&metadata).unwrap();
    assert_eq!(
        info.packages,
        vec![
            entry("m", "1.0.0", "registry", DependencyKind::Build, vec![]),
            entry("r", "1.0.0", "local", DependencyKind::Runtime, vec![0, 0]),
        ]
    );
}

#[test]
fn edge_without_kinds_counts_as_runtime() {
    let metadata = graph(
        vec![package("r", "r", "1.0.0", None), package("m", "m", "1.0.0", Some(REGISTRY))],
        vec![node("r", vec![edge("m", &[])])],
        "r",
    );
    let info = RawVersionInfo::from_metadata(&metadata).unwrap();
    assert_eq!(info.packages[0], entry("m", "1.0.0", "registry", DependencyKind::Runtime, vec![]));
    let with_dev = graph(
        vec![package("r", "r", "1.0.0", None), package("m", "m", "1.0.0", Some(REGISTRY))],
        vec![node("r", vec![edge("m", &[]), edge("m", &[Development])])],
        "r",
    );
    let info = RawVersionInfo::from_metadata(&with_dev).unwrap();
    assert_eq!(info.packages, vec![entry("r", "1.0.0", "local", DependencyKind::Runtime, vec![])]);
}

#[test]
fn root_is_runtime_whatever_leads_to_it() {
    let metadata = graph(
        vec![package("r", "r", "1.0.0", None), package("m", "m", "1.0.0", Some(REGISTRY))],
        vec![node("r", vec![edge("m", &[Runtime])]), node("m", vec![edge("r", &[Development])])],
        "r",
    );
    let info = RawVersionInfo::from_metadata(&metadata).unwrap();
    assert_eq!(
        info.packages,
        vec![
            entry("m", "1.0.0", "registry", DependencyKind::Runtime, vec![1]),
            entry("r", "1.0.0", "local", DependencyKind::Runtime, vec![0]),
        ]
    );
}

#[test]
fn order_is_by_name_then_version_then_id() {
    let metadata = graph(
        vec![
            package("root", "zz", "1.0.0", None),
            package("id-3", "lib", "0.9.0", Some("git+https://example.org/lib")),
            package("id-2", "lib", "0.10.0", Some(REGISTRY)),
            package("id-1", "lib", "0.9.0", Some(REGISTRY)),
            package("id-0", "Lib", "2.0.0", Some(REGISTRY)),
        ],
        vec![node(
            "root",
            vec![
                edge("id-3", &[Runtime]),
                edge("id-2", &[Runtime]),
                edge("id-1", &[Runtime]),
                edge("id-0", &[Runtime]),
            ],
        )],
        "root",
    );
    let info = RawVersionInfo::from_metadata(&metadata).unwrap();
    assert_eq!(
        info.packages,
        vec![
            entry("Lib", "2.0.0", "registry", DependencyKind::Runtime, vec![]),
            entry("lib", "0.10.0", "registry", DependencyKind::Runtime, vec![]),
            entry("lib", "0.9.0", "registry", DependencyKind::Runtime, vec![]),
            entry("lib", "0.9.0", "git", DependencyKind::Runtime, vec![]),
            entry("zz", "1.0.0", "local", DependencyKind::Runtime, vec![0, 1, 2, 3]),
        ]
    );
}

#[test]
fn edge_order_does_not_matter() {
    let first = RawVersionInfo::from_metadata(&mixed_paths()).unwrap();
    let mut shuffled = mixed_paths();
    let resolve = shuffled.resolve.as_mut().unwrap();
    resolve.nodes.reverse();
    for node in resolve.nodes.iter_mut() {
        node.deps.reverse();
    }
    shuffled.packages.reverse();
    let second = RawVersionInfo::from_metadata(&shuffled).unwrap();
    assert_eq!(first, second);
    let third = RawVersionInfo::from_metadata(&mixed_paths()).unwrap();
    assert_eq!(first, third);
}

#[test]
fn sorted_graph_keeps_its_places() {
    let metadata = graph(
        vec![
            package("a", "a", "1.0.0", Some(REGISTRY)),
            package("b", "b", "1.0.0", Some(REGISTRY)),
            package("c", "c", "1.0.0", None),
        ],
        vec![
            node("a", vec![edge("b", &[Runtime])]),
            node("b", vec![]),
            node("c", vec![edge("a", &[Runtime]), edge("b", &[Build])]),
        ],
        "c",
    );
    let info = RawVersionInfo::from_metadata(&metadata).unwrap();
    assert_eq!(
        info.packages,
        vec![
            entry("a", "1.0.0", "registry", DependencyKind::Runtime, vec![1]),
            entry("b", "1.0.0", "registry", DependencyKind::Runtime, vec![]),
            entry("c", "1.0.0", "local", DependencyKind::Runtime, vec![0, 1]),
        ]
    );
    let again = graph(
        info.packages
            .iter()
            .map(|p| package(&p.name, &p.name, &p.version, Some(&p.source)))
            .collect(),
        info.packages
            .iter()
            .map(|p| {
                node(
                    &p.name,
                    p.dependencies
                        .iter()
                        .map(|d| edge(&info.packages[*d].name, &[Runtime]))
                        .collect(),
                )
            })
            .collect(),
        "c",
    );
    let second = RawVersionInfo::from_metadata(&again).unwrap();
    assert_eq!(second, info);
}

#[test]
fn of_packages_with_one_id_the_last_stands() {
    let metadata = graph(
        vec![
            package("m", "first", "1.0.0", Some(REGISTRY)),
            package("r", "r", "1.0.0", None),
            package("m", "second", "2.0.0", Some(REGISTRY)),
        ],
        vec![node("r", vec![edge("m", &[Runtime])])],
        "r",
    );
    let info = RawVersionInfo::from_metadata(&metadata).unwrap();
    assert_eq!(
        info.packages,
        vec![
            entry("r", "1.0.0", "local", DependencyKind::Runtime, vec![1]),
            entry("second", "2.0.0", "registry", DependencyKind::Runtime, vec![]),
        ]
    );
}

#[test]
fn nodes_with_one_id_add_their_edges() {
    let metadata = graph(
        vec![
            package("r", "r", "1.0.0", None),
            package("a", "a", "1.0.0", Some(REGISTRY)),
            package("b", "b", "1.0.0", Some(REGISTRY)),
        ],
        vec![node("r", vec![edge("b", &[Runtime])]), node("r", vec![edge("a", &[Runtime])])],
        "r",
    );
    let info = RawVersionInfo::from_metadata(&metadata).unwrap();
    assert_eq!(info.packages[2], entry("r", "1.0.0", "local", DependencyKind::Runtime, vec![0, 1]));
}

#[test]
fn missing_resolution_is_inconsistent() {
    let metadata = Metadata { packages: vec![package("r", "r", "1.0.0", None)], resolve: None };
    assert_eq!(RawVersionInfo::from_metadata(&metadata), Err(Error::InconsistentGraph));
    let empty = Metadata { packages: vec![], resolve: None };
    assert_eq!(RawVersionInfo::from_metadata(&empty), Err(Error::InconsistentGraph));
}

#[test]
fn missing_root_is_inconsistent() {
    let metadata = Metadata {
        packages: vec![package("r", "r", "1.0.0", None)],
        resolve: Some(Resolve { nodes: vec![node("r", vec![])], root: None }),
    };
    assert_eq!(RawVersionInfo::from_metadata(&metadata), Err(Error::InconsistentGraph));
}

#[test]
fn package_that_nothing_leads_to_is_inconsistent() {
    let metadata = graph(
        vec![package("r", "r", "1.0.0", None), package("stray", "stray", "1.0.0", None)],
        vec![node("r", vec![]), node("stray", vec![])],
        "r",
    );
    assert_eq!(RawVersionInfo::from_metadata(&metadata), Err(Error::InconsistentGraph));
}

#[test]
fn edge_to_a_package_not_held_is_inconsistent() {
    let metadata = graph(
        vec![package("r", "r", "1.0.0", None)],
        vec![node("r", vec![edge("ghost", &[Runtime])])],
        "r",
    );
    assert_eq!(RawVersionInfo::from_metadata(&metadata), Err(Error::InconsistentGraph));
    let development = graph(
        vec![package("r", "r", "1.0.0", None)],
        vec![node("r", vec![edge("ghost", &[Development])])],
        "r",
    );
    assert_eq!(
        RawVersionInfo::from_metadata(&development),
        Ok(RawVersionInfo {
            packages: vec![entry("r", "1.0.0", "local", DependencyKind::Runtime, vec![])]
        })
    );
    let from_dropped = graph(
        vec![package("r", "r", "1.0.0", None), package("d", "d", "1.0.0", None)],
        vec![node("r", vec![edge("d", &[Development])]), node("d", vec![edge("ghost", &[Runtime])])],
        "r",
    );
    assert!(RawVersionInfo::from_metadata(&from_dropped).is_ok());
}

#[test]
fn root_alone() {
    let metadata = graph(vec![package("r", "r", "1.0.0", None)], vec![], "r");
    assert_eq!(
        RawVersionInfo::from_metadata(&metadata),
        Ok(RawVersionInfo {
            packages: vec![entry("r", "1.0.0", "local", DependencyKind::Runtime, vec![])]
        })
    );
    let nothing = graph(vec![], vec![], "r");
    assert_eq!(RawVersionInfo::from_metadata(&nothing), Ok(RawVersionInfo { packages: vec![] }));
}

#[test]
fn aggregate_kind_of_a_resolution() {
    let metadata = mixed_paths();
    let resolve = metadata.resolve.unwrap();
    assert_eq!(resolve.aggregate_kind(&"r 1.0.0".to_owned()), Some(Runtime));
    assert_eq!(resolve.aggregate_kind(&"a 0.1.0".to_owned()), Some(Build));
    assert_eq!(resolve.aggregate_kind(&"b 0.2.0".to_owned()), Some(Runtime));
    assert_eq!(resolve.aggregate_kind(&"unknown".to_owned()), None);
    let only_dev = Resolve {
        nodes: vec![node("r", vec![edge("d", &[Development]), edge("d", &[Development])])],
        root: None,
    };
    assert_eq!(only_dev.aggregate_kind(&"d".to_owned()), Some(Development));
    assert_eq!(only_dev.aggregate_kind(&"r".to_owned()), None);
}

#[test]
fn well_formed_model() {
    let good = RawVersionInfo {
        packages: vec![
            entry("a", "1", "local", DependencyKind::Runtime, vec![1, 0]),
            entry("b", "1", "local", DependencyKind::Build, vec![]),
        ],
    };
    assert!(good.is_well_formed());
    let bad = RawVersionInfo {
        packages: vec![entry("a", "1", "local", DependencyKind::Runtime, vec![1])],
    };
    assert!(!bad.is_well_formed());
    assert!(RawVersionInfo { packages: vec![] }.is_well_formed());
}
