use file_manager::{matches_folded, name_le, Child, FileInfo, FileManager, FsError, Metadata};

fn child(path: &str, size: u64, is_directory: bool) -> Child {
    Child {
        path: path.to_string(),
        metadata: Some(Metadata { size, is_directory }),
    }
}

fn vanished(path: &str) -> Child {
    Child { path: path.to_string(), metadata: None }
}

fn names(v: &[&FileInfo]) -> Vec<String> {
    v.iter().map(|f| f.name.clone()).collect()
}

fn sample() -> FileManager {
    let listing = vec![
        child("/d/b.txt", 500, false),
        child("/d/A", 4096, true),
        child("/d/a.txt", 2000, false),
    ];
    FileManager::new("/d".to_string(), Some(listing)).unwrap().0
}

#[test]
fn scan_orders_directories_first_then_by_name() {
    let m = sample();
    let order: Vec<String> = m.files().iter().map(|f| f.name.clone()).collect();
    assert_eq!(order, vec!["A", "a.txt", "b.txt"]);
    assert_eq!(m.count_by_type(), (1, 2));
    assert_eq!(m.get_total_size(), 2500);
    assert_eq!(names(&m.get_largest_files(1)), vec!["a.txt"]);
    assert_eq!(m.current_path(), "/d");
}

#[test]
fn scan_skips_entries_whose_metadata_vanished() {
    let listing = vec![
        child("/d/keep.rs", 10, false),
        vanished("/d/gone.txt"),
        child("/d/src", 4096, true),
    ];
    let (m, report) = FileManager::new("/d".to_string(), Some(listing)).unwrap();
    assert_eq!(report.skipped, vec!["/d/gone.txt".to_string()]);
    assert_eq!(report.count, 2);
    let order: Vec<String> = m.files().iter().map(|f| f.name.clone()).collect();
    assert_eq!(order, vec!["src", "keep.rs"]);
}

#[test]
fn unlistable_directory_is_an_error() {
    let r = FileManager::new("/missing".to_string(), None);
    assert!(matches!(r, Err(FsError::ListUnavailable)));
}

#[test]
fn rescan_replaces_entries_and_failed_rescan_clears_them() {
    let mut m = sample();
    let report = m.scan_directory(Some(vec![child("/d/z", 1, false)])).unwrap();
    assert_eq!(report.count, 1);
    assert!(report.skipped.is_empty());
    assert_eq!(m.files().len(), 1);
    assert_eq!(m.files()[0].name, "z");
    assert_eq!(m.scan_directory(None).err(), Some(FsError::ListUnavailable));
    assert!(m.files().is_empty());
    assert_eq!(m.current_path(), "/d");
}

#[test]
fn empty_directory_has_no_entries() {
    let (m, report) = FileManager::new("/e".to_string(), Some(Vec::new())).unwrap();
    assert_eq!(report.count, 0);
    assert_eq!(m.count_by_type(), (0, 0));
    assert_eq!(m.get_total_size(), 0);
    assert!(m.get_largest_files(5).is_empty());
    assert!(m.search_files("").is_empty());
}

#[test]
fn counts_sum_to_entry_count() {
    let listing = vec![
        child("/d/x", 1, true),
        child("/d/y", 1, true),
        child("/d/f1", 3, false),
        child("/d/f2", 4, false),
        child("/d/f3", 5, false),
    ];
    let (m, _) = FileManager::new("/d".to_string(), Some(listing)).unwrap();
    let (dirs, files) = m.count_by_type();
    assert_eq!((dirs, files), (2, 3));
    assert_eq!(dirs + files, m.files().len());
}

#[test]
fn total_size_ignores_directories() {
    let listing = vec![child("/d/x", 4096, true), child("/d/y", 8192, true)];
    let (m, _) = FileManager::new("/d".to_string(), Some(listing)).unwrap();
    assert_eq!(m.get_total_size(), 0);
    let m2 = sample();
    assert_eq!(m2.get_total_size(), 500 + 2000);
}

#[test]
fn search_with_empty_query_returns_everything() {
    let m = sample();
    assert_eq!(names(&m.search_files("")), vec!["A", "a.txt", "b.txt"]);
}

#[test]
fn search_ignores_case_and_keeps_order() {
    let listing = vec![
        child("/p/main.rs", 10, false),
        child("/p/Domain.txt", 20, false),
        child("/p/lib.rs", 30, false),
        child("/p/MAINTAINERS", 40, true),
    ];
    let (m, _) = FileManager::new("/p".to_string(), Some(listing)).unwrap();
    let upper = names(&m.search_files("MAIN"));
    let lower = names(&m.search_files("main"));
    assert_eq!(upper, vec!["MAINTAINERS", "Domain.txt", "main.rs"]);
    assert_eq!(upper, lower);
    assert!(m.search_files("zzz").is_empty());
}

#[test]
fn largest_files_are_sorted_by_size_without_directories() {
    let listing = vec![
        child("/d/small", 1, false),
        child("/d/big", 900, false),
        child("/d/dir", 999999, true),
        child("/d/mid", 50, false),
        child("/d/mid2", 50, false),
    ];
    let (m, _) = FileManager::new("/d".to_string(), Some(listing)).unwrap();
    assert_eq!(names(&m.get_largest_files(10)), vec!["big", "mid", "mid2", "small"]);
    assert_eq!(names(&m.get_largest_files(2)), vec!["big", "mid"]);
    assert!(m.get_largest_files(0).is_empty());
}

#[test]
fn name_order_is_raw_code_point_order() {
    assert!(name_le("A", "a.txt"));
    assert!(!name_le("a.txt", "A"));
    assert!(name_le("abc", "abd"));
    assert!(name_le("ab", "abc"));
    assert!(!name_le("abc", "ab"));
    assert!(name_le("", ""));
    assert!(name_le("Z", "a"));
    assert!(name_le("z", "é"));
}

#[test]
fn folded_match_is_plain_substring() {
    assert!(matches_folded("domain.txt", "main"));
    assert!(matches_folded("main", ""));
    assert!(!matches_folded("domain.txt", "MAIN"));
    assert!(!matches_folded("ma", "main"));
    assert!(matches_folded("naïve.txt", "ïve"));
    assert!(matches_folded("abc", "abc"));
    assert!(matches_folded("abc", "c"));
    assert!(!matches_folded("abcab", "abd"));
    assert!(!matches_folded("", "a"));
}
