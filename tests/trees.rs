use rit::builder::{paths_are_consistent, PathInfo, PathKind};
use rit::database::{Blob, ObjectID, Storable};
use rit::entry::{Entry, Mode};
use rit::tree::Tree;
use rit::workspace::{Workspace, WorkspacePath};

fn oid(hex: &str) -> ObjectID {
    ObjectID::from_str(hex).unwrap()
}

fn file(path: &str, content: &str) -> PathInfo {
    PathInfo {
        path: WorkspacePath::new(path).unwrap(),
        kind: PathKind::File(Blob::new(content.as_bytes().to_vec()).oid(), Mode::ReadWrite),
    }
}

fn dir(path: &str) -> PathInfo {
    PathInfo { path: WorkspacePath::new(path).unwrap(), kind: PathKind::Directory }
}

fn names(t: &Tree) -> Vec<Vec<u8>> {
    t.entries().iter().map(|e| e.path().to_vec()).collect()
}

#[test]
fn single_file_tree_has_reference_id() {
    let t = Tree::new(vec![Entry::new(
        b"file.txt".to_vec(),
        oid("754bb844fb01df2613c0c1fe26eaa701ce46e853"),
        Mode::ReadWrite,
    )]);
    let mut expected = b"100644 file.txt\0".to_vec();
    expected.extend_from_slice(oid("754bb844fb01df2613c0c1fe26eaa701ce46e853").as_bytes());
    assert_eq!(t.serialize(), expected);
    assert_eq!(t.oid().as_str(), "d5fc9eda85155890f7d5424130ab8684251b65e7");
}

#[test]
fn empty_tree_has_reference_id() {
    let t = Tree::new(Vec::new());
    assert_eq!(t.serialize(), Vec::<u8>::new());
    assert_eq!(t.oid().as_str(), "4b825dc642cb6eb9a060e54bf8d69288fbee4904");
}

#[test]
fn tree_sorts_entries_by_raw_bytes() {
    let a = oid("754bb844fb01df2613c0c1fe26eaa701ce46e853");
    let t = Tree::new(vec![
        Entry::new(b"b".to_vec(), a.clone(), Mode::ReadWrite),
        Entry::new(b"a.txt".to_vec(), a.clone(), Mode::ReadWriteExecute),
        Entry::new(vec![0xff, 0x01], a.clone(), Mode::ReadWrite),
        Entry::new(b"a".to_vec(), a.clone(), Mode::Directory),
        Entry::new(b"B".to_vec(), a.clone(), Mode::ReadWrite),
    ]);
    assert_eq!(
        names(&t),
        vec![b"B".to_vec(), b"a".to_vec(), b"a.txt".to_vec(), b"b".to_vec(), vec![0xff, 0x01]]
    );
}

#[test]
fn tree_serialization_ignores_input_order() {
    let x = oid("754bb844fb01df2613c0c1fe26eaa701ce46e853");
    let y = oid("e69de29bb2d1d6434b8b29ae775ad8c2e48c5391");
    let t1 = Tree::new(vec![
        Entry::new(b"one".to_vec(), x.clone(), Mode::ReadWrite),
        Entry::new(b"two".to_vec(), y.clone(), Mode::ReadWriteExecute),
        Entry::new(b"three".to_vec(), x.clone(), Mode::Directory),
    ]);
    let t2 = Tree::new(vec![
        Entry::new(b"three".to_vec(), x.clone(), Mode::Directory),
        Entry::new(b"two".to_vec(), y.clone(), Mode::ReadWriteExecute),
        Entry::new(b"one".to_vec(), x.clone(), Mode::ReadWrite),
    ]);
    assert_eq!(t1.serialize(), t2.serialize());
    assert_eq!(t1.oid(), t2.oid());
}

#[test]
fn mode_strings() {
    assert_eq!(Mode::ReadWrite.as_str(), "100644");
    assert_eq!(Mode::ReadWriteExecute.as_str(), "100755");
    assert_eq!(Mode::Directory.as_str(), "040000");
}

#[test]
fn entry_accessors() {
    let x = oid("754bb844fb01df2613c0c1fe26eaa701ce46e853");
    let e = Entry::new(b"name".to_vec(), x.clone(), Mode::ReadWriteExecute);
    assert_eq!(e.path(), b"name");
    assert_eq!(e.path_bytes(), b"name");
    assert_eq!(e.oid(), &x);
    assert_eq!(e.mode(), &Mode::ReadWriteExecute);
}

#[test]
fn nested_workspace_builds_three_trees() {
    let paths = vec![
        file("file.txt", "file contents"),
        dir("subdir"),
        file("subdir/file.txt", "hi"),
        dir("subdir/nested"),
        file("subdir/nested/file.txt", "hello"),
    ];
    assert!(paths_are_consistent(&paths));
    let trees = Tree::build(&paths);
    assert_eq!(trees.len(), 3);
    let nested = &trees[0];
    let subdir = &trees[1];
    let root = &trees[2];

    assert_eq!(names(nested), vec![b"file.txt".to_vec()]);
    assert_eq!(nested.entries()[0].oid(), &Blob::new(b"hello".to_vec()).oid());
    assert_eq!(nested.entries()[0].mode(), &Mode::ReadWrite);

    assert_eq!(names(subdir), vec![b"file.txt".to_vec(), b"nested".to_vec()]);
    assert_eq!(subdir.entries()[0].oid(), &Blob::new(b"hi".to_vec()).oid());
    assert_eq!(subdir.entries()[1].oid(), &nested.oid());
    assert_eq!(subdir.entries()[1].mode(), &Mode::Directory);

    assert_eq!(names(root), vec![b"file.txt".to_vec(), b"subdir".to_vec()]);
    assert_eq!(root.entries()[0].oid(), &Blob::new(b"file contents".to_vec()).oid());
    assert_eq!(root.entries()[1].oid(), &subdir.oid());
    assert_eq!(root.entries()[1].mode(), &Mode::Directory);
}

#[test]
fn build_ignores_path_order() {
    let a = vec![
        file("file.txt", "file contents"),
        file("subdir/file.txt", "hi"),
        file("subdir/nested/file.txt", "hello"),
        dir("subdir"),
    ];
    let b = vec![
        dir("subdir"),
        file("subdir/nested/file.txt", "hello"),
        file("file.txt", "file contents"),
        file("subdir/file.txt", "hi"),
    ];
    let ta = Tree::build(&a);
    let tb = Tree::build(&b);
    assert_eq!(ta.last().unwrap().oid(), tb.last().unwrap().oid());
}

#[test]
fn build_of_single_file_matches_reference_tree() {
    let trees = Tree::build(&vec![file("file.txt", "file contents")]);
    assert_eq!(trees.len(), 1);
    assert_eq!(trees[0].oid().as_str(), "d5fc9eda85155890f7d5424130ab8684251b65e7");
}

#[test]
fn build_leaves_out_empty_directories() {
    let trees = Tree::build(&vec![dir("empty"), dir("empty/deeper"), file("a", "x")]);
    assert_eq!(trees.len(), 1);
    assert_eq!(names(&trees[0]), vec![b"a".to_vec()]);
    let none = Tree::build(&vec![dir("empty")]);
    assert_eq!(none.len(), 1);
    assert_eq!(none[0].oid().as_str(), "4b825dc642cb6eb9a060e54bf8d69288fbee4904");
}

#[test]
fn executable_mode_is_kept() {
    let paths = vec![PathInfo {
        path: WorkspacePath::new("run.sh").unwrap(),
        kind: PathKind::File(Blob::new(b"#!/bin/sh\n".to_vec()).oid(), Mode::ReadWriteExecute),
    }];
    let trees = Tree::build(&paths);
    assert_eq!(trees[0].entries()[0].mode(), &Mode::ReadWriteExecute);
    assert!(trees[0].serialize().starts_with(b"100755 run.sh\0"));
}

#[test]
fn inconsistent_paths_are_detected() {
    assert!(!paths_are_consistent(&vec![file("a", "x"), file("a/b", "y")]));
    assert!(!paths_are_consistent(&vec![file("a", "x"), dir("a")]));
    assert!(!paths_are_consistent(&vec![file("a", "x"), file("a", "y")]));
    assert!(!paths_are_consistent(&vec![dir("")]));
    assert!(paths_are_consistent(&vec![file("a", "x"), file("a", "x"), dir("b")]));
}

#[test]
fn workspace_path_splits_components() {
    let p = WorkspacePath::new("dir//sub/./file.txt").unwrap();
    assert_eq!(
        p.components().clone(),
        vec![b"dir".to_vec(), b"sub".to_vec(), b"file.txt".to_vec()]
    );
    assert_eq!(p.as_partial_path(), b"dir//sub/./file.txt");
    assert_eq!(WorkspacePath::new("").unwrap().components().len(), 0);
}

#[test]
fn workspace_path_keeps_given_text() {
    let p = WorkspacePath::new("./a").unwrap();
    assert_eq!(p.as_partial_path(), b"./a");
    assert_eq!(p.components().clone(), vec![b"a".to_vec()]);
    let w = Workspace::new(b"/root");
    assert_eq!(w.full_path(&p), b"/root/./a".to_vec());
}

#[test]
fn workspace_path_rejects_absolute() {
    assert_eq!(WorkspacePath::new("/etc/passwd").unwrap_err(), rit::error::RitError::Validation);
}

#[test]
fn test_full_path() {
    let workspace = Workspace::new(b"/tmp/test_full_path");
    assert_eq!(
        workspace.full_path(&WorkspacePath::new("").unwrap()),
        b"/tmp/test_full_path".to_vec()
    );
    assert_eq!(
        workspace.full_path(&WorkspacePath::new("file.txt").unwrap()),
        b"/tmp/test_full_path/file.txt".to_vec()
    );
}

#[test]
fn git_directory_is_ignored() {
    assert!(Workspace::ignored(&WorkspacePath::new(".git").unwrap()));
    assert!(Workspace::ignored(&WorkspacePath::new("sub/.git").unwrap()));
    assert!(!Workspace::ignored(&WorkspacePath::new("not-git-dir").unwrap()));
    assert!(!Workspace::ignored(&WorkspacePath::new(".gitignore").unwrap()));
}

#[test]
fn execute_bit_selects_mode() {
    assert_eq!(Mode::for_file(0o100644), Mode::ReadWrite);
    assert_eq!(Mode::for_file(0o100755), Mode::ReadWriteExecute);
    assert_eq!(Mode::for_file(0o100744), Mode::ReadWriteExecute);
    assert_eq!(Mode::for_file(0o100001), Mode::ReadWriteExecute);
}
