use dircompare::compare::{compare, Failure, Side, TreeListing};
use dircompare::walk::WalkEntry;

fn components(path: &str) -> Vec<Vec<u8>> {
    path.split('/').map(|c| c.as_bytes().to_vec()).collect()
}

fn file(root: &str, rel: &str) -> WalkEntry {
    WalkEntry::Visited { path: components(&format!("{}/{}", root, rel)), is_file: true }
}

fn dir(root: &str, rel: &str) -> WalkEntry {
    let path = if rel.is_empty() { root.to_string() } else { format!("{}/{}", root, rel) };
    WalkEntry::Visited { path: components(&path), is_file: false }
}

fn tree(root: &str, files: &[&str]) -> TreeListing {
    let mut entries = vec![dir(root, "")];
    for f in files {
        entries.push(file(root, f));
    }
    TreeListing { root: components(root), root_is_dir: true, entries }
}

fn paths(list: &[&str]) -> Vec<Vec<u8>> {
    list.iter().map(|p| p.as_bytes().to_vec()).collect()
}

#[test]
fn compare_with_itself_is_identical() {
    let a = tree("data/a", &["x.txt", "sub/y.txt", "sub/deeper/z.bin"]);
    let report = compare(&a, &a).unwrap();
    assert!(report.identical);
    assert!(report.a_only.is_empty());
    assert!(report.b_only.is_empty());
}

#[test]
fn swapped_comparison_swaps_sides() {
    let a = tree("left", &["common.txt", "a1.txt", "dir/a2.txt"]);
    let b = tree("right", &["common.txt", "b1.txt"]);
    let ab = compare(&a, &b).unwrap();
    let ba = compare(&b, &a).unwrap();
    assert_eq!(ab.a_only, paths(&["a1.txt", "dir/a2.txt"]));
    assert_eq!(ab.b_only, paths(&["b1.txt"]));
    for p in &ab.a_only {
        assert!(!ab.b_only.contains(p));
    }
    assert_eq!(ba.a_only, ab.b_only);
    assert_eq!(ba.b_only, ab.a_only);
    assert_eq!(ba.identical, ab.identical);
    assert!(!ab.identical);
}

#[test]
fn repeated_comparison_gives_same_report() {
    let a = tree("one", &["q.txt", "r/s.txt"]);
    let b = tree("two", &["q.txt", "t.txt"]);
    assert_eq!(compare(&a, &b), compare(&a, &b));
}

#[test]
fn two_empty_directories_are_identical() {
    let a = tree("empty_a", &[]);
    let b = tree("empty_b", &[]);
    let report = compare(&a, &b).unwrap();
    assert!(report.identical);
    assert!(report.a_only.is_empty());
    assert!(report.b_only.is_empty());
}

#[test]
fn missing_root_is_root_not_found() {
    let present = tree("present", &["f.txt"]);
    let missing = TreeListing { root: components("missing"), root_is_dir: false, entries: vec![] };
    assert_eq!(compare(&missing, &present), Err(Failure::RootNotFound(Side::A)));
    assert_eq!(compare(&present, &missing), Err(Failure::RootNotFound(Side::B)));
    assert_eq!(compare(&missing, &missing), Err(Failure::RootNotFound(Side::A)));
}

#[test]
fn file_only_under_first_root_in_subdirectory() {
    let a = tree("A", &["x.txt", "sub/y.txt"]);
    let b = tree("B", &["x.txt"]);
    let report = compare(&a, &b).unwrap();
    assert_eq!(report.a_only, paths(&["sub/y.txt"]));
    assert!(report.b_only.is_empty());
    assert!(!report.identical);
}

#[test]
fn same_file_present_in_both_is_identical() {
    let a = tree("A", &["a.txt"]);
    let b = tree("B", &["a.txt"]);
    let report = compare(&a, &b).unwrap();
    assert!(report.identical);
}

#[test]
fn file_only_under_second_root() {
    let a = tree("A", &[]);
    let b = tree("B", &["only.txt"]);
    let report = compare(&a, &b).unwrap();
    assert!(report.a_only.is_empty());
    assert_eq!(report.b_only, paths(&["only.txt"]));
    assert!(!report.identical);
}

#[test]
fn unreadable_entry_is_skipped_and_not_reported() {
    let mut a = tree("A", &["kept.txt"]);
    // the walk could not stat "locked.bin": it yields an error in its place
    a.entries.push(WalkEntry::Unreadable);
    let b = tree("B", &["kept.txt"]);
    let report = compare(&a, &b).unwrap();
    assert!(!report.a_only.contains(&b"locked.bin".to_vec()));
    assert!(report.a_only.is_empty());
    assert!(report.b_only.is_empty());
    assert!(report.identical);
}

#[test]
fn unreadable_entry_shows_as_missing_on_the_side_that_read_it() {
    let mut a = tree("A", &[]);
    a.entries.push(WalkEntry::Unreadable);
    let b = tree("B", &["locked.bin"]);
    let report = compare(&a, &b).unwrap();
    assert!(report.a_only.is_empty());
    assert_eq!(report.b_only, paths(&["locked.bin"]));
}

#[test]
fn directories_are_not_members_of_a_file_set() {
    let mut a = tree("A", &["f.txt"]);
    a.entries.push(dir("A", "empty_dir"));
    let b = tree("B", &["f.txt"]);
    let report = compare(&a, &b).unwrap();
    assert!(report.identical);
}

#[test]
fn file_outside_root_is_normalization_failure() {
    let mut a = tree("A", &["f.txt"]);
    a.entries.push(file("elsewhere", "g.txt"));
    let b = tree("B", &["f.txt"]);
    assert_eq!(compare(&a, &b), Err(Failure::PathNormalization(Side::A)));
    assert_eq!(compare(&b, &a), Err(Failure::PathNormalization(Side::B)));
}

#[test]
fn missing_root_is_reported_before_normalization() {
    let mut a = tree("A", &[]);
    a.entries.push(file("elsewhere", "g.txt"));
    let missing = TreeListing { root: components("B"), root_is_dir: false, entries: vec![] };
    assert_eq!(compare(&a, &missing), Err(Failure::RootNotFound(Side::B)));
}

#[test]
fn root_with_matching_name_prefix_is_not_a_parent() {
    let mut a = tree("data", &[]);
    a.entries.push(WalkEntry::Visited { path: components("database/f.txt"), is_file: true });
    let b = tree("B", &[]);
    assert_eq!(compare(&a, &b), Err(Failure::PathNormalization(Side::A)));
}

#[test]
fn differences_are_listed_in_lexicographic_order() {
    let a = tree("A", &["zeta", "b/c", "alpha", "b"]);
    let b = tree("B", &[]);
    let report = compare(&a, &b).unwrap();
    assert_eq!(report.a_only, paths(&["alpha", "b", "b/c", "zeta"]));
}
