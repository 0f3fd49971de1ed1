use rit::author::{Author, Timestamp};
use rit::commit::{Commit, CommitStep, CommitTask};
use rit::database::{Blob, ObjectID, Storable};
use rit::error::RitError;

const TREE: &str = "d5fc9eda85155890f7d5424130ab8684251b65e7";

fn sean() -> Author {
    // 2021-01-01T01:01:01+00:00
    Author::new(
        "Sean".to_string(),
        "sean@zombo.com".to_string(),
        Timestamp::new(1609462861, 0).unwrap(),
    )
}

fn text(c: &Commit) -> String {
    String::from_utf8(c.data().clone()).unwrap()
}

#[test]
fn author_line_format() {
    assert_eq!(sean().to_bytes(), b"Sean <sean@zombo.com> 1609462861 +0000".to_vec());
}

#[test]
fn author_line_with_offsets() {
    let east = Author::new("A".to_string(), "a@b".to_string(), Timestamp::new(10, 19800).unwrap());
    assert_eq!(east.to_bytes(), b"A <a@b> 10 +0530".to_vec());
    let west = Author::new("A".to_string(), "a@b".to_string(), Timestamp::new(-5, -12600).unwrap());
    assert_eq!(west.to_bytes(), b"A <a@b> -5 -0330".to_vec());
}

#[test]
fn timestamp_rejects_offset_of_a_day() {
    assert!(Timestamp::new(0, 86400).is_none());
    assert!(Timestamp::new(0, -86400).is_none());
    let t = Timestamp::new(7, -3600).unwrap();
    assert_eq!(t.epoch_seconds(), 7);
    assert_eq!(t.offset_seconds(), -3600);
}

#[test]
fn first_commit_has_no_parent_line() {
    let tree = ObjectID::from_str(TREE).unwrap();
    let c = Commit::new(&None, &tree, sean(), "message".to_string()).unwrap();
    assert_eq!(
        text(&c),
        "tree d5fc9eda85155890f7d5424130ab8684251b65e7\n\
         author Sean <sean@zombo.com> 1609462861 +0000\n\
         committer Sean <sean@zombo.com> 1609462861 +0000\n\
         \n\
         message"
    );
    assert_eq!(c.message(), "message");
    assert_eq!(c.type_tag(), "commit");
}

#[test]
fn second_commit_names_its_parent() {
    let tree = ObjectID::from_str(TREE).unwrap();
    let first = Commit::new(&None, &tree, sean(), "one".to_string()).unwrap();
    let parent = first.oid();
    let second = Commit::new(&Some(parent.clone()), &tree, sean(), "two".to_string()).unwrap();
    let body = text(&second);
    assert!(body.starts_with(&format!("parent {}\ntree {}\n", parent.as_str(), TREE)));
    assert!(!text(&first).contains("parent"));
    assert_ne!(first.oid(), second.oid());
}

#[test]
fn commit_rejects_empty_message() {
    let tree = ObjectID::from_str(TREE).unwrap();
    assert_eq!(
        Commit::new(&None, &tree, sean(), String::new()).err(),
        Some(RitError::Validation)
    );
}

#[test]
fn commit_id_hashes_its_encoding() {
    let tree = ObjectID::from_str(TREE).unwrap();
    let c = Commit::new(&None, &tree, sean(), "message".to_string()).unwrap();
    let raw = c.encoded_raw();
    assert!(raw.starts_with(format!("commit {}\0", c.data().len()).as_bytes()));
    let same = Blob::new(c.data().clone());
    assert_ne!(same.oid(), c.oid());
}

#[test]
fn commit_stores_blobs_trees_commit_then_head() {
    let (mut task, mut step) = CommitTask::start(2, 3);
    let mut order = vec![step];
    while !matches!(step, CommitStep::Done | CommitStep::Abort(_)) {
        step = task.step(None);
        order.push(step);
    }
    assert_eq!(
        order,
        vec![
            CommitStep::StoreBlob(0),
            CommitStep::StoreBlob(1),
            CommitStep::StoreTree(0),
            CommitStep::StoreTree(1),
            CommitStep::StoreTree(2),
            CommitStep::StoreCommit,
            CommitStep::UpdateHead,
            CommitStep::Done,
        ]
    );
}

#[test]
fn failed_store_never_reaches_head() {
    let (mut task, first) = CommitTask::start(0, 1);
    assert_eq!(first, CommitStep::StoreTree(0));
    assert_eq!(task.step(None), CommitStep::StoreCommit);
    assert_eq!(task.step(Some(RitError::Io)), CommitStep::Abort(RitError::Io));
    assert_eq!(task.step(None), CommitStep::Abort(RitError::Io));
    let (mut locked, _) = CommitTask::start(0, 0);
    assert_eq!(locked.step(None), CommitStep::UpdateHead);
    assert_eq!(locked.step(Some(RitError::Acquisition)), CommitStep::Abort(RitError::Acquisition));
}
