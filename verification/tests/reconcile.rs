use repo_sync::fs::{Directory, File};
use repo_sync::path::EntryPath;
use repo_sync::scan::DirectoryScanList;
use repo_sync::sync::{RemoteOp, Sync};

fn p(s: &str) -> EntryPath {
    EntryPath::parse(&s.as_bytes().to_vec()).unwrap()
}

fn dirs(names: &[&str]) -> Vec<Directory> {
    names.iter().map(|n| Directory::new(p(n))).collect()
}

fn files(entries: &[(&str, u64)]) -> Vec<File> {
    entries.iter().map(|(n, s)| File::new(p(n), *s)).collect()
}

fn snapshot(d: &[&str], f: &[(&str, u64)]) -> DirectoryScanList {
    let scan = DirectoryScanList::from_parts(dirs(d), files(f));
    assert!(scan.check_wf());
    scan
}

fn paths(v: &[EntryPath]) -> Vec<String> {
    v.iter()
        .map(|e| String::from_utf8(e.display_bytes()).unwrap())
        .collect()
}

#[test]
fn copy_new_file() {
    let plan = Sync::unidirectional(snapshot(&[], &[("a.txt", 10)]), snapshot(&[], &[]));
    assert_eq!(paths(plan.copy_files()), vec!["a.txt"]);
    assert!(plan.remove_files().is_empty());
    assert!(plan.remove_directories().is_empty());
    assert!(plan.create_directories().is_empty());
}

#[test]
fn recopy_on_size_change() {
    let plan = Sync::unidirectional(
        snapshot(&[], &[("a.txt", 10)]),
        snapshot(&[], &[("a.txt", 20)]),
    );
    assert_eq!(paths(plan.copy_files()), vec!["a.txt"]);
    assert!(plan.remove_files().is_empty());
    assert!(plan.remove_directories().is_empty());
    assert!(plan.create_directories().is_empty());
}

#[test]
fn remove_stale_file() {
    let plan = Sync::unidirectional(snapshot(&[], &[]), snapshot(&[], &[("old.txt", 5)]));
    assert_eq!(paths(plan.remove_files()), vec!["old.txt"]);
    assert!(plan.copy_files().is_empty());
    assert!(plan.remove_directories().is_empty());
    assert!(plan.create_directories().is_empty());
}

#[test]
fn create_directory_before_copy() {
    let plan = Sync::unidirectional(
        snapshot(&["sub"], &[("sub/a.txt", 1)]),
        snapshot(&[], &[]),
    );
    assert_eq!(paths(plan.create_directories()), vec!["sub"]);
    assert_eq!(paths(plan.copy_files()), vec!["sub/a.txt"]);
    // The executor issues creations before copies.
    let ops = plan.remote_operations();
    assert_eq!(
        ops,
        vec![
            RemoteOp::CreateDirectory(p("sub")),
            RemoteOp::CopyFile(p("sub/a.txt")),
        ]
    );
}

#[test]
fn equal_trees_give_empty_plan() {
    let plan = Sync::unidirectional(
        snapshot(&["d"], &[("a", 1), ("d/b", 2)]),
        snapshot(&["d"], &[("a", 1), ("d/b", 2)]),
    );
    assert!(plan.remove_files().is_empty());
    assert!(plan.remove_directories().is_empty());
    assert!(plan.create_directories().is_empty());
    assert!(plan.copy_files().is_empty());
}

#[test]
fn size_only_equality() {
    // Same path and size on both sides: never copied, whatever else exists.
    let plan = Sync::unidirectional(
        snapshot(&[], &[("same.txt", 7), ("other.txt", 1)]),
        snapshot(&[], &[("same.txt", 7)]),
    );
    assert_eq!(paths(plan.copy_files()), vec!["other.txt"]);
}

#[test]
fn lists_are_disjoint_and_duplicate_free() {
    let plan = Sync::unidirectional(
        snapshot(&["n"], &[("a", 1), ("b", 2)]),
        snapshot(&["o"], &[("b", 3), ("c", 4)]),
    );
    assert_eq!(paths(plan.create_directories()), vec!["n"]);
    assert_eq!(paths(plan.remove_directories()), vec!["o"]);
    assert_eq!(paths(plan.copy_files()), vec!["a", "b"]);
    assert_eq!(paths(plan.remove_files()), vec!["c"]);
    for f in plan.remove_files() {
        assert!(!plan.copy_files().contains(f));
    }
}

#[test]
fn ancestors_precede_descendants() {
    let plan = Sync::unidirectional(
        snapshot(&["a", "a/b", "a/b/c"], &[]),
        snapshot(&["z", "z/y"], &[]),
    );
    assert_eq!(paths(plan.create_directories()), vec!["a", "a/b", "a/b/c"]);
    assert_eq!(paths(plan.remove_directories()), vec!["z", "z/y"]);
}

#[test]
fn kind_symmetry_for_one_sided_file() {
    let plan = Sync::unidirectional(
        snapshot(&["sub"], &[("p.txt", 3)]),
        snapshot(&["sub"], &[]),
    );
    let copies = paths(plan.copy_files());
    assert_eq!(copies.iter().filter(|q| *q == "p.txt").count(), 1);
    assert!(!paths(plan.create_directories()).contains(&"p.txt".to_string()));
    assert!(!paths(plan.remove_files()).contains(&"p.txt".to_string()));
}

#[test]
fn apply_then_reconcile_is_empty() {
    let source = snapshot(&["sub"], &[("a", 1), ("sub/b", 2), ("keep", 9)]);
    let target = snapshot(&["old"], &[("a", 3), ("c", 4), ("keep", 9)]);
    let plan = Sync::unidirectional(
        snapshot(&["sub"], &[("a", 1), ("sub/b", 2), ("keep", 9)]),
        snapshot(&["old"], &[("a", 3), ("c", 4), ("keep", 9)]),
    );
    // Apply the plan to the target tree.
    let (mut tdirs, mut tfiles) = target.into_parts();
    tdirs.retain(|d| !plan.remove_directories().contains(&d.path));
    for c in plan.create_directories() {
        tdirs.push(Directory::new(clone_path(c)));
    }
    tfiles.retain(|f| !plan.remove_files().contains(&f.path));
    let (_, sfiles) = source.into_parts();
    for c in plan.copy_files() {
        let size = sfiles.iter().find(|f| &f.path == c).unwrap().size;
        tfiles.retain(|f| &f.path != c);
        tfiles.push(File::new(clone_path(c), size));
    }
    let mutated = DirectoryScanList::from_parts(tdirs, tfiles);
    assert!(mutated.check_wf());
    let replan = Sync::unidirectional(
        snapshot(&["sub"], &[("a", 1), ("sub/b", 2), ("keep", 9)]),
        mutated,
    );
    assert!(replan.remove_files().is_empty());
    assert!(replan.remove_directories().is_empty());
    assert!(replan.create_directories().is_empty());
    assert!(replan.copy_files().is_empty());
}

fn clone_path(e: &EntryPath) -> EntryPath {
    e.duplicate()
}

#[test]
fn empty_source_empties_target() {
    let plan = Sync::unidirectional(snapshot(&[], &[]), snapshot(&["d"], &[("f", 1)]));
    assert_eq!(paths(plan.remove_directories()), vec!["d"]);
    assert_eq!(paths(plan.remove_files()), vec!["f"]);
    assert!(plan.copy_files().is_empty());
    assert!(plan.create_directories().is_empty());
}

#[test]
fn remote_batch_order_and_skipped_directory_removal() {
    let plan = Sync::unidirectional(
        snapshot(&["n"], &[("x", 1)]),
        snapshot(&["gone"], &[("y", 2)]),
    );
    assert_eq!(paths(plan.remove_directories()), vec!["gone"]);
    let ops = plan.remote_operations();
    // Removals first, then creations, then copies; no directory removal at
    // all for the remote side.
    assert_eq!(
        ops,
        vec![
            RemoteOp::RemoveFile(p("y")),
            RemoteOp::CreateDirectory(p("n")),
            RemoteOp::CopyFile(p("x")),
        ]
    );
}

#[test]
fn local_target_directory_guard() {
    // The target has an empty directory absent from the source, and a
    // non-empty one: only the observed-empty directory is removed.
    let plan = Sync::unidirectional(snapshot(&[], &[]), snapshot(&["empty", "kept"], &[]));
    assert_eq!(paths(plan.remove_directories()), vec!["empty", "kept"]);
    let observed_empty = vec![true, false];
    let removals = plan.local_directory_removals(&observed_empty);
    assert_eq!(paths(&removals), vec!["empty"]);
}
