use rit::database::{FsOutcome, ObjectID};
use rit::error::RitError;
use rit::lockfile::{LockAction, LockFile};
use rit::refs::{trim_space, Refs};
use std::collections::HashMap;

const A: &str = "754bb844fb01df2613c0c1fe26eaa701ce46e853";
const B: &str = "d5fc9eda85155890f7d5424130ab8684251b65e7";

/// Performs `action` of `lock` on an in-memory file system.
fn perform(fs: &mut HashMap<Vec<u8>, Vec<u8>>, lock: &LockFile, action: LockAction) -> FsOutcome {
    match action {
        LockAction::CreateLock => {
            if fs.contains_key(lock.lock_file()) {
                FsOutcome::AlreadyExists
            } else {
                fs.insert(lock.lock_file().to_vec(), Vec::new());
                FsOutcome::Done
            }
        }
        LockAction::WriteLock => {
            fs.insert(lock.lock_file().to_vec(), lock.contents().to_vec());
            FsOutcome::Done
        }
        LockAction::RenameLock => {
            let bytes = fs.remove(lock.lock_file()).unwrap();
            fs.insert(lock.path().to_vec(), bytes);
            FsOutcome::Done
        }
        LockAction::RemoveLock => {
            fs.remove(lock.lock_file());
            FsOutcome::Done
        }
        LockAction::Committed | LockAction::Abort(_) => FsOutcome::Done,
    }
}

#[test]
fn head_path_is_in_the_repository() {
    let refs = Refs::new(b".git");
    assert_eq!(refs.head_path(), b".git/HEAD".to_vec());
}

#[test]
fn lock_path_appends_suffix() {
    assert_eq!(LockFile::lock_path(b".git/HEAD").unwrap(), b".git/HEAD.lock".to_vec());
    assert_eq!(LockFile::lock_path(b"HEAD").unwrap(), b"HEAD.lock".to_vec());
    assert_eq!(LockFile::lock_path(b"").unwrap_err(), RitError::Validation);
    assert_eq!(LockFile::lock_path(b"dir/").unwrap_err(), RitError::Validation);
    assert_eq!(LockFile::lock_path(b"dir/..").unwrap_err(), RitError::Validation);
}

#[test]
fn concurrent_head_updates_one_wins() {
    let refs = Refs::new(b".git");
    let mut fs: HashMap<Vec<u8>, Vec<u8>> = HashMap::new();
    let (mut first, mut a1) = refs.update_head(&ObjectID::from_str(A).unwrap()).unwrap();
    let (mut second, mut a2) = refs.update_head(&ObjectID::from_str(B).unwrap()).unwrap();
    // The first writer takes the lock; then the second tries.
    let ev = perform(&mut fs, &first, a1);
    a1 = first.step(ev);
    assert_eq!(a1, LockAction::WriteLock);
    let ev = perform(&mut fs, &second, a2);
    a2 = second.step(ev);
    assert_eq!(a2, LockAction::Abort(RitError::Acquisition));
    while !matches!(a1, LockAction::Committed | LockAction::Abort(_)) {
        let ev = perform(&mut fs, &first, a1);
        a1 = first.step(ev);
    }
    assert_eq!(a1, LockAction::Committed);
    let head = fs.get(&b".git/HEAD".to_vec()).unwrap();
    assert_eq!(head, &A.as_bytes().to_vec());
    assert!(!fs.contains_key(&b".git/HEAD.lock".to_vec()));
    assert_eq!(Refs::parse_head(head).unwrap(), ObjectID::from_str(A).unwrap());
}

#[test]
fn failed_write_releases_the_lock() {
    let refs = Refs::new(b".git");
    let (mut lock, first) = refs.update_head(&ObjectID::from_str(A).unwrap()).unwrap();
    assert_eq!(first, LockAction::CreateLock);
    assert_eq!(lock.step(FsOutcome::Done), LockAction::WriteLock);
    assert_eq!(lock.step(FsOutcome::Failed), LockAction::RemoveLock);
    assert_eq!(lock.step(FsOutcome::Done), LockAction::Abort(RitError::Io));
}

#[test]
fn failed_rename_releases_the_lock() {
    let (mut lock, _) = LockFile::new(b"target", b"x".to_vec()).unwrap();
    assert_eq!(lock.step(FsOutcome::Done), LockAction::WriteLock);
    assert_eq!(lock.step(FsOutcome::Done), LockAction::RenameLock);
    assert_eq!(lock.step(FsOutcome::Failed), LockAction::RemoveLock);
    assert_eq!(lock.step(FsOutcome::Failed), LockAction::Abort(RitError::Io));
}

#[test]
fn lock_creation_failure_is_io() {
    let (mut lock, _) = LockFile::new(b"target", b"x".to_vec()).unwrap();
    assert_eq!(lock.step(FsOutcome::Failed), LockAction::Abort(RitError::Io));
}

#[test]
fn head_contents_are_trimmed() {
    let contents = format!("  {}\n", A);
    assert_eq!(Refs::parse_head(contents.as_bytes()).unwrap(), ObjectID::from_str(A).unwrap());
    assert_eq!(trim_space(b" \t ab \r\n"), b"ab");
    assert_eq!(trim_space(b"   "), b"");
}

#[test]
fn malformed_head_is_a_parse_error() {
    assert_eq!(Refs::parse_head(b"").unwrap_err(), RitError::Parse);
    assert_eq!(Refs::parse_head(b"ref: refs/heads/master\n").unwrap_err(), RitError::Parse);
    assert_eq!(Refs::parse_head(b"754bb844").unwrap_err(), RitError::Parse);
}

#[test]
fn missing_head_is_not_found() {
    assert_eq!(Refs::read_head(None).unwrap_err(), RitError::NotFound);
    assert_eq!(Refs::read_head(Some(A.as_bytes())).unwrap(), ObjectID::from_str(A).unwrap());
}

#[test]
fn parent_of_first_commit_is_none() {
    assert_eq!(Refs::commit_parent(None).unwrap(), None);
    assert_eq!(
        Refs::commit_parent(Some(format!("{}\n", B).as_bytes())).unwrap(),
        Some(ObjectID::from_str(B).unwrap())
    );
    assert_eq!(Refs::commit_parent(Some(b"garbage")).unwrap_err(), RitError::Parse);
}
