use audit_info::normalize::{package_key_lt, sorted_indices};
use audit_info::text::{bytes_lt, string_lt};
use audit_info::{source_to_source_string, MetadataPackage};

fn s(text: &str) -> String {
    text.to_owned()
}

#[test]
fn source_is_cut_at_the_first_plus() {
    let registry = Some(s("registry+https://github.com/rust-lang/crates.io-index"));
    assert_eq!(source_to_source_string(&registry), "registry");
    assert_eq!(source_to_source_string(&Some(s("git+https://a/b?rev=1+2#3"))), "git");
    assert_eq!(source_to_source_string(&Some(s("no plus here"))), "no plus here");
    assert_eq!(source_to_source_string(&Some(s("+leading"))), "");
    assert_eq!(source_to_source_string(&Some(s("trailing+"))), "trailing");
    assert_eq!(source_to_source_string(&Some(s(""))), "");
    assert_eq!(source_to_source_string(&Some(s("r\u{e9}gistre+x"))), "r\u{e9}gistre");
}

#[test]
fn no_source_is_local() {
    assert_eq!(source_to_source_string(&None), "local");
}

#[test]
fn bytes_order_is_lexicographic() {
    assert!(bytes_lt(b"", b"a"));
    assert!(!bytes_lt(b"", b""));
    assert!(!bytes_lt(b"a", b""));
    assert!(bytes_lt(b"a", b"ab"));
    assert!(!bytes_lt(b"ab", b"a"));
    assert!(bytes_lt(b"ab", b"b"));
    assert!(bytes_lt(b"abc", b"abd"));
    assert!(!bytes_lt(b"abd", b"abc"));
    assert!(!bytes_lt(b"abc", b"abc"));
    assert!(bytes_lt(&[0x7f], &[0x80]));
}

#[test]
fn string_order_agrees_with_std() {
    let words = ["", "a", "A", "ab", "b", "0.10.0", "0.9.0", "\u{e9}", "z", "\u{10348}", "zz"];
    for a in words.iter() {
        for b in words.iter() {
            assert_eq!(string_lt(&s(a), &s(b)), a < b);
        }
    }
}

#[test]
fn versions_are_ordered_as_text() {
    assert!(string_lt(&s("0.10.0"), &s("0.9.0")));
    assert!(!string_lt(&s("0.9.0"), &s("0.10.0")));
}

fn package(id: &str, name: &str, version: &str) -> MetadataPackage {
    MetadataPackage { id: s(id), name: s(name), version: s(version), source: None }
}

#[test]
fn key_order_of_packages() {
    assert!(package_key_lt(&package("9", "a", "9"), &package("0", "b", "0")));
    assert!(!package_key_lt(&package("0", "b", "0"), &package("9", "a", "9")));
    assert!(package_key_lt(&package("9", "a", "1"), &package("0", "a", "2")));
    assert!(!package_key_lt(&package("0", "a", "2"), &package("9", "a", "1")));
    assert!(package_key_lt(&package("1", "a", "1"), &package("2", "a", "1")));
    assert!(!package_key_lt(&package("2", "a", "1"), &package("1", "a", "1")));
    assert!(!package_key_lt(&package("1", "a", "1"), &package("1", "a", "1")));
}

#[test]
fn indices_are_sorted_and_kept() {
    assert_eq!(sorted_indices(&vec![3, 1, 2, 1, 0, 3]), vec![0, 1, 1, 2, 3, 3]);
    assert_eq!(sorted_indices(&vec![]), Vec::<usize>::new());
    assert_eq!(sorted_indices(&vec![5]), vec![5]);
    assert_eq!(sorted_indices(&vec![usize::MAX, 0]), vec![0, usize::MAX]);
}
