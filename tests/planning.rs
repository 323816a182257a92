use cpx::exclude::ExcludeMatcher;
use cpx::plan::CopyPlan;
use cpx::walk::{admit_source, plan_single_file, target_in_directory, EntryKind, PlanWalk};
use cpx::error::CopyError;
use cpx::paths::is_entry_name;

fn no_exclusions() -> ExcludeMatcher {
    ExcludeMatcher::new(&vec![]).unwrap()
}

#[test]
fn new_plan_is_empty() {
    let plan = CopyPlan::new();
    assert!(plan.files.is_empty());
    assert!(plan.directories.is_empty());
    assert_eq!(plan.total_size, 0);
    assert_eq!(plan.total_files, 0);
}

#[test]
fn add_file_counts_totals() {
    let mut plan = CopyPlan::new();
    plan.add_file("a".to_string(), "b".to_string(), 10);
    plan.add_file("c".to_string(), "d".to_string(), 5);
    assert_eq!(plan.total_size, 15);
    assert_eq!(plan.total_files, 2);
    assert_eq!(plan.files[1].source, "c");
    plan.add_directory("x".to_string());
    assert_eq!(plan.directories, vec!["x".to_string()]);
    assert_eq!(plan.total_files, 2);
}

#[test]
fn sort_orders_largest_first_and_keeps_ties() {
    let mut plan = CopyPlan::new();
    plan.add_file("s1".to_string(), "d1".to_string(), 1);
    plan.add_file("s2".to_string(), "d2".to_string(), 100);
    plan.add_file("s3".to_string(), "d3".to_string(), 10);
    plan.add_file("s4".to_string(), "d4".to_string(), 100);
    plan.sort_by_size_desc();
    let order: Vec<&str> = plan.files.iter().map(|f| f.source.as_str()).collect();
    assert_eq!(order, vec!["s2", "s4", "s3", "s1"]);
    assert_eq!(plan.total_size, 211);
}

#[test]
fn absorb_merges_totals() {
    let mut a = CopyPlan::new();
    a.add_file("a".to_string(), "b".to_string(), 3);
    let mut b = CopyPlan::new();
    b.add_file("c".to_string(), "d".to_string(), 4);
    b.add_directory("e".to_string());
    a.absorb(b);
    assert_eq!(a.total_size, 7);
    assert_eq!(a.total_files, 2);
    assert_eq!(a.directories.len(), 1);
}

#[test]
fn single_file_into_directory_uses_basename() {
    let plan = plan_single_file("/src/dir/file.txt", EntryKind::File, 42, "/dest", true).unwrap();
    assert_eq!(plan.files.len(), 1);
    assert_eq!(plan.files[0].destination, "/dest/file.txt");
    assert_eq!(plan.total_size, 42);
}

#[test]
fn single_file_to_path_keeps_it() {
    let plan = plan_single_file("a.txt", EntryKind::File, 7, "b.txt", false).unwrap();
    assert_eq!(plan.files[0].destination, "b.txt");
    assert_eq!(plan.total_files, 1);
}

#[test]
fn single_file_refuses_directory() {
    let r = plan_single_file("dir", EntryKind::Directory, 0, "out", false);
    assert!(matches!(r, Err(CopyError::InvalidSource(p)) if p == "dir"));
}

#[test]
fn single_file_without_name_into_directory_is_refused() {
    let r = plan_single_file("/", EntryKind::File, 0, "out", true);
    assert!(matches!(r, Err(CopyError::InvalidSource(_))));
    let r = plan_single_file("a/..", EntryKind::File, 0, "out", true);
    assert!(matches!(r, Err(CopyError::InvalidSource(_))));
}

#[test]
fn target_in_directory_joins_name() {
    assert_eq!(target_in_directory("x/y/", "d/").unwrap(), "d/y");
}

/// Walks a synthetic tree: root holds a (10 bytes), b (100 bytes) and sub/,
/// which holds c (1 byte).
fn walk_tree(walk: &mut PlanWalk) {
    while let Some(dir) = walk.next_directory() {
        if dir == "src" {
            walk.add_entry("a", EntryKind::File, 10);
            walk.add_entry("b", EntryKind::File, 100);
            walk.add_entry("sub", EntryKind::Directory, 0);
            walk.add_entry("sock", EntryKind::Other, 0);
        } else if dir == "src/sub" {
            walk.add_entry("c", EntryKind::File, 1);
        } else {
            panic!("unexpected directory {dir}");
        }
    }
}

#[test]
fn directory_walk_counts_three_files() {
    let mut walk = PlanWalk::new(no_exclusions());
    walk.add_root("src".to_string(), "dst".to_string(), EntryKind::Directory, 0).unwrap();
    walk_tree(&mut walk);
    let plan = walk.finish();
    assert_eq!(plan.total_files, 3);
    assert_eq!(plan.total_size, 111);
    let sizes: Vec<u64> = plan.files.iter().map(|f| f.size).collect();
    assert_eq!(sizes, vec![100, 10, 1]);
    assert_eq!(plan.files[2].source, "src/sub/c");
    assert_eq!(plan.files[2].destination, "dst/sub/c");
    assert_eq!(plan.directories, vec!["dst".to_string(), "dst/sub".to_string()]);
}

#[test]
fn excluded_directory_is_pruned() {
    let m = ExcludeMatcher::new(&vec!["sub".to_string()]).unwrap();
    let mut walk = PlanWalk::new(m);
    walk.add_root("src".to_string(), "dst".to_string(), EntryKind::Directory, 0).unwrap();
    walk_tree(&mut walk);
    let plan = walk.finish();
    assert_eq!(plan.total_files, 2);
    assert_eq!(plan.total_size, 110);
    assert_eq!(plan.directories, vec!["dst".to_string()]);
}

#[test]
fn excluded_file_is_not_counted() {
    let m = ExcludeMatcher::new(&vec!["b".to_string(), "*.tmp".to_string()]).unwrap();
    let mut walk = PlanWalk::new(m);
    walk.add_root("src".to_string(), "dst".to_string(), EntryKind::Directory, 0).unwrap();
    walk_tree(&mut walk);
    let plan = walk.finish();
    assert_eq!(plan.total_files, 2);
    assert_eq!(plan.total_size, 11);
}

#[test]
fn exclusion_matches_relative_paths() {
    let m = ExcludeMatcher::new(&vec!["sub/*".to_string()]).unwrap();
    assert!(m.is_excluded("sub/c"));
    assert!(!m.is_excluded("sub"));
    assert!(!m.is_excluded("a"));
}

#[test]
fn malformed_pattern_is_refused() {
    let r = ExcludeMatcher::new(&vec!["a[".to_string()]);
    assert!(matches!(r, Err(cpx::error::ExcludeError::PatternCompilation(_))));
}

#[test]
fn multiple_sources_go_inside_destination() {
    let mut walk = PlanWalk::new(no_exclusions());
    walk.add_source_into("x/one.txt", EntryKind::File, 5, "out").unwrap();
    walk.add_source_into("src", EntryKind::Directory, 0, "out").unwrap();
    assert!(walk.add_source_into("..", EntryKind::File, 1, "out").is_err());
    while let Some(dir) = walk.next_directory() {
        assert_eq!(dir, "src");
        walk.add_entry("f", EntryKind::File, 9);
    }
    let plan = walk.finish();
    assert_eq!(plan.total_files, 2);
    assert_eq!(plan.total_size, 14);
    assert_eq!(plan.files[0].destination, "out/src/f");
    assert_eq!(plan.files[1].destination, "out/one.txt");
    assert_eq!(plan.directories, vec!["out/src".to_string()]);
}

#[test]
fn directory_source_needs_recursion() {
    assert!(matches!(admit_source("d", EntryKind::Directory, false), Err(CopyError::InvalidSource(ref p)) if p == "d"));
    assert!(admit_source("d", EntryKind::Directory, true).is_ok());
    assert!(admit_source("f", EntryKind::File, false).is_ok());
}

#[test]
fn overlapping_roots_are_refused() {
    let mut walk = PlanWalk::new(no_exclusions());
    walk.add_root("a".to_string(), "out/a".to_string(), EntryKind::Directory, 0).unwrap();
    let inside = walk.add_root("b".to_string(), "out/a/b".to_string(), EntryKind::File, 3);
    assert!(matches!(inside, Err(CopyError::InvalidDestination(ref p)) if p == "out/a/b"));
    let around = walk.add_root("c".to_string(), "out".to_string(), EntryKind::Directory, 0);
    assert!(around.is_err());
    assert!(walk.add_root("d".to_string(), "out/d".to_string(), EntryKind::File, 3).is_ok());
    assert_eq!(walk.total_files(), 1);
}

#[test]
fn sources_with_the_same_name_are_refused() {
    let mut walk = PlanWalk::new(no_exclusions());
    walk.add_source_into("x/f.txt", EntryKind::File, 5, "out").unwrap();
    let again = walk.add_source_into("y/f.txt", EntryKind::File, 6, "out");
    assert!(matches!(again, Err(CopyError::InvalidDestination(ref p)) if p == "out/f.txt"));
    let plan = walk.finish();
    assert_eq!(plan.total_files, 1);
    assert_eq!(plan.total_size, 5);
}

#[test]
fn last_root_is_listed_first() {
    let mut walk = PlanWalk::new(no_exclusions());
    walk.add_root("s1".to_string(), "d1".to_string(), EntryKind::Directory, 0).unwrap();
    walk.add_root("s2".to_string(), "d2".to_string(), EntryKind::Directory, 0).unwrap();
    assert_eq!(walk.next_directory(), Some("s2".to_string()));
    assert_eq!(walk.next_directory(), Some("s1".to_string()));
    assert_eq!(walk.next_directory(), None);
}

#[test]
fn entry_names_are_single_components() {
    assert!(is_entry_name("file.txt"));
    assert!(!is_entry_name(""));
    assert!(!is_entry_name("."));
    assert!(!is_entry_name("a/b"));
    assert!(is_entry_name(".."));
}
