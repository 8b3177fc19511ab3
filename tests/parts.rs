use dircompare::order::{lex_less, same_bytes};
use dircompare::reconcile::reconcile;
use dircompare::walk::{relative_files, strip_root, WalkEntry, SEPARATOR};

fn components(path: &str) -> Vec<Vec<u8>> {
    path.split('/').map(|c| c.as_bytes().to_vec()).collect()
}

fn paths(list: &[&str]) -> Vec<Vec<u8>> {
    list.iter().map(|p| p.as_bytes().to_vec()).collect()
}

#[test]
fn lex_less_orders_bytes() {
    assert!(lex_less(&b"abc".to_vec(), &b"abd".to_vec()));
    assert!(!lex_less(&b"abd".to_vec(), &b"abc".to_vec()));
    assert!(lex_less(&b"ab".to_vec(), &b"abc".to_vec()));
    assert!(!lex_less(&b"abc".to_vec(), &b"ab".to_vec()));
    assert!(!lex_less(&b"abc".to_vec(), &b"abc".to_vec()));
    assert!(lex_less(&Vec::new(), &b"a".to_vec()));
    assert!(!lex_less(&Vec::new(), &Vec::new()));
}

#[test]
fn same_bytes_is_equality() {
    assert!(same_bytes(&b"x.txt".to_vec(), &b"x.txt".to_vec()));
    assert!(!same_bytes(&b"x.txt".to_vec(), &b"x.tx".to_vec()));
    assert!(!same_bytes(&b"x.txt".to_vec(), &b"y.txt".to_vec()));
}

#[test]
fn strip_root_joins_remaining_components() {
    let root = components("srv/data");
    assert_eq!(strip_root(&root, &components("srv/data/sub/y.txt")), Some(b"sub/y.txt".to_vec()));
    assert_eq!(strip_root(&root, &components("srv/data/x.txt")), Some(b"x.txt".to_vec()));
    assert_eq!(strip_root(&root, &components("srv/data")), Some(Vec::new()));
    assert_eq!(strip_root(&root, &components("srv/other/x.txt")), None);
    assert_eq!(strip_root(&root, &components("srv")), None);
    assert_eq!(SEPARATOR, b'/');
}

#[test]
fn relative_files_skips_directories_and_unreadable_entries() {
    let root = components("r");
    let entries = vec![
        WalkEntry::Visited { path: components("r"), is_file: false },
        WalkEntry::Visited { path: components("r/b.txt"), is_file: true },
        WalkEntry::Unreadable,
        WalkEntry::Visited { path: components("r/d"), is_file: false },
        WalkEntry::Visited { path: components("r/d/a.txt"), is_file: true },
    ];
    assert_eq!(relative_files(&root, &entries), Some(paths(&["b.txt", "d/a.txt"])));
    let outside = vec![WalkEntry::Visited { path: components("q/a.txt"), is_file: true }];
    assert_eq!(relative_files(&root, &outside), None);
    assert_eq!(relative_files(&root, &Vec::new()), Some(Vec::new()));
}

#[test]
fn reconcile_sorts_and_drops_repeats() {
    let report = reconcile(paths(&["m", "c", "a", "c", "k"]), paths(&["k", "z", "b", "z"]));
    assert_eq!(report.a_only, paths(&["a", "c", "m"]));
    assert_eq!(report.b_only, paths(&["b", "z"]));
    assert!(!report.identical);
}

#[test]
fn reconcile_equal_sets_in_other_order() {
    let report = reconcile(paths(&["y", "x", "x"]), paths(&["x", "y"]));
    assert!(report.identical);
    assert!(report.a_only.is_empty());
    assert!(report.b_only.is_empty());
}
