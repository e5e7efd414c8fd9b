use audit_info::kind::strongest_dep_kind;
use audit_info::PrivateDepKind::{Build, Development, Runtime};
use audit_info::{is_default, DependencyKind, PrivateDepKind};

#[test]
fn default_kind_is_runtime() {
    assert_eq!(DependencyKind::default(), DependencyKind::Runtime);
}

#[test]
fn is_default_of_kinds_and_lists() {
    assert!(is_default(&DependencyKind::Runtime));
    assert!(!is_default(&DependencyKind::Build));
    assert!(is_default(&Vec::<usize>::new()));
    assert!(!is_default(&vec![0usize]));
    assert!(is_default(&0u8));
    assert!(!is_default(&String::from("x")));
}

#[test]
fn ranks_go_from_weakest_to_strongest() {
    assert_eq!(PrivateDepKind::Development.rank(), 0);
    assert_eq!(PrivateDepKind::Build.rank(), 1);
    assert_eq!(PrivateDepKind::Runtime.rank(), 2);
    assert_eq!(DependencyKind::Build.rank(), 1);
    assert_eq!(DependencyKind::Runtime.rank(), 2);
    assert!(PrivateDepKind::Development < PrivateDepKind::Build);
    assert!(PrivateDepKind::Build < PrivateDepKind::Runtime);
    assert!(DependencyKind::Build < DependencyKind::Runtime);
}

#[test]
fn kinds_compare_by_rank() {
    assert_eq!(DependencyKind::Build, DependencyKind::Build);
    assert_eq!(DependencyKind::Runtime, DependencyKind::Runtime);
    assert_ne!(DependencyKind::Build, DependencyKind::Runtime);
}

#[test]
fn edge_kinds_convert_to_public_kinds() {
    assert_eq!(DependencyKind::from(PrivateDepKind::Build), DependencyKind::Build);
    assert_eq!(DependencyKind::from(PrivateDepKind::Runtime), DependencyKind::Runtime);
}

#[test]
fn strongest_of_a_list() {
    assert_eq!(strongest_dep_kind(&[]), Runtime);
    assert_eq!(strongest_dep_kind(&[Development]), Development);
    assert_eq!(strongest_dep_kind(&[Development, Development]), Development);
    assert_eq!(strongest_dep_kind(&[Build]), Build);
    assert_eq!(strongest_dep_kind(&[Development, Build]), Build);
    assert_eq!(strongest_dep_kind(&[Build, Development]), Build);
    assert_eq!(strongest_dep_kind(&[Build, Runtime]), Runtime);
    assert_eq!(strongest_dep_kind(&[Runtime, Build]), Runtime);
    assert_eq!(strongest_dep_kind(&[Runtime, Development, Build]), Runtime);
    assert_eq!(strongest_dep_kind(&[Development, Build, Runtime, Build]), Runtime);
}
