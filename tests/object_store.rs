use rit::database::{
    encode_object, Blob, Database, FsOutcome, ObjectID, ObjectKind, ObjectPlacement, StoreAction,
    StoreTask, Storable,
};
use rit::error::RitError;
use std::collections::HashMap;
use std::io::Read;

/// An in-memory file system: files by path, and the directories made.
struct MemFs {
    files: HashMap<Vec<u8>, Vec<u8>>,
    dirs: Vec<Vec<u8>>,
}

impl MemFs {
    fn new() -> MemFs {
        MemFs { files: HashMap::new(), dirs: Vec::new() }
    }

    /// Runs one store against this file system, returning its end and the
    /// actions asked for.
    fn store(&mut self, p: &ObjectPlacement) -> (StoreAction, Vec<StoreAction>) {
        let (mut task, mut action) = StoreTask::start();
        let mut asked = Vec::new();
        loop {
            asked.push(action);
            let ev = match action {
                StoreAction::CreateDir => {
                    if !self.dirs.contains(&p.dir) {
                        self.dirs.push(p.dir.clone());
                    }
                    FsOutcome::Done
                }
                StoreAction::CheckExists => FsOutcome::Found(self.files.contains_key(&p.final_path)),
                StoreAction::CreateTemp => {
                    if self.files.contains_key(&p.temp_path) {
                        FsOutcome::AlreadyExists
                    } else {
                        self.files.insert(p.temp_path.clone(), Vec::new());
                        FsOutcome::Done
                    }
                }
                StoreAction::WriteTemp => {
                    self.files.insert(p.temp_path.clone(), p.content.clone());
                    FsOutcome::Done
                }
                StoreAction::RenameTemp => {
                    let bytes = self.files.remove(&p.temp_path).unwrap();
                    self.files.insert(p.final_path.clone(), bytes);
                    FsOutcome::Done
                }
                StoreAction::Stored | StoreAction::Abort(_) => return (action, asked),
            };
            action = task.step(ev);
        }
    }
}

fn inflate(bytes: &[u8]) -> Vec<u8> {
    let mut out = Vec::new();
    flate2::read::ZlibDecoder::new(bytes).read_to_end(&mut out).unwrap();
    out
}

#[test]
fn blob_of_file_contents_has_reference_id() {
    let blob = Blob::new(b"file contents".to_vec());
    assert_eq!(blob.encoded_raw(), b"blob 13\0file contents".to_vec());
    assert_eq!(blob.oid().as_str(), "754bb844fb01df2613c0c1fe26eaa701ce46e853");
    assert_eq!(blob.type_tag(), "blob");
}

#[test]
fn empty_blob_has_reference_id() {
    let blob = Blob::new(Vec::new());
    assert_eq!(blob.encoded_raw(), b"blob 0\0".to_vec());
    assert_eq!(blob.oid().as_str(), "e69de29bb2d1d6434b8b29ae775ad8c2e48c5391");
}

#[test]
fn encoding_header_counts_payload_bytes() {
    let data = vec![7u8; 1234];
    let enc = encode_object(ObjectKind::Commit, &data);
    assert_eq!(&enc[..12], b"commit 1234\0");
    assert_eq!(enc.len(), 12 + 1234);
}

#[test]
fn equal_content_gives_equal_id() {
    let a = Blob::new(b"same bytes".to_vec());
    let b = Blob::new(b"same bytes".to_vec());
    let c = Blob::new(b"other bytes".to_vec());
    assert_eq!(a.oid(), b.oid());
    assert_ne!(a.oid(), c.oid());
    assert_eq!(a.oid().as_bytes().len(), 20);
}

#[test]
fn placement_shards_by_hex_id() {
    let db = Database::new(b".git/objects");
    let blob = Blob::new(b"file contents".to_vec());
    let p = db.placement(&blob, b"1");
    assert_eq!(p.dir, b".git/objects/75".to_vec());
    assert_eq!(p.final_path, b".git/objects/75/4bb844fb01df2613c0c1fe26eaa701ce46e853".to_vec());
    assert_eq!(p.temp_path, b".git/objects/75/4bb844fb01df2613c0c1fe26eaa701ce46e853.1.tmp".to_vec());
}

#[test]
fn stored_bytes_inflate_to_canonical_encoding() {
    let db = Database::new(b"objects");
    let blob = Blob::new(b"hello world\n".to_vec());
    let p = db.placement(&blob, b"1");
    assert_ne!(p.content, blob.encoded_raw());
    assert_eq!(inflate(&p.content), blob.encoded_raw());
    assert_eq!(inflate(&blob.serialize()), b"blob 12\0hello world\n".to_vec());
}

#[test]
fn storing_twice_keeps_one_copy() {
    let db = Database::new(b"objects");
    let blob = Blob::new(b"twice".to_vec());
    let p = db.placement(&blob, b"1");
    let mut fs = MemFs::new();
    let (first, _) = fs.store(&p);
    assert_eq!(first, StoreAction::Stored);
    let (second, asked) = fs.store(&p);
    assert_eq!(second, StoreAction::Stored);
    assert!(!asked.contains(&StoreAction::WriteTemp));
    assert_eq!(fs.files.len(), 1);
    assert_eq!(inflate(&fs.files[&p.final_path]), blob.encoded_raw());
}

#[test]
fn store_fails_when_temp_name_is_taken() {
    let db = Database::new(b"objects");
    let blob = Blob::new(b"contended".to_vec());
    let p = db.placement(&blob, b"1");
    let mut fs = MemFs::new();
    fs.files.insert(p.temp_path.clone(), Vec::new());
    let (end, _) = fs.store(&p);
    assert_eq!(end, StoreAction::Abort(RitError::Io));
}

#[test]
fn store_failure_is_an_io_error() {
    let (mut task, first) = StoreTask::start();
    assert_eq!(first, StoreAction::CreateDir);
    assert_eq!(task.step(FsOutcome::Failed), StoreAction::Abort(RitError::Io));
}

#[test]
fn object_id_round_trips_through_hex() {
    let text = "754bb844fb01df2613c0c1fe26eaa701ce46e853";
    let id = ObjectID::from_str(text).unwrap();
    assert_eq!(id.as_str(), text);
    assert_eq!(id.hex(), text.as_bytes().to_vec());
    assert_eq!(id.as_bytes()[0], 0x75);
    assert_eq!(id.as_bytes()[19], 0x53);
    let upper = ObjectID::from_str("754BB844FB01DF2613C0C1FE26EAA701CE46E853").unwrap();
    assert_eq!(upper, id);
}

#[test]
fn object_id_rejects_wrong_length() {
    assert_eq!(ObjectID::from_str("754bb844").unwrap_err(), RitError::Parse);
    assert_eq!(ObjectID::from_str("").unwrap_err(), RitError::Parse);
}

#[test]
fn object_id_rejects_bad_hex() {
    assert_eq!(
        ObjectID::from_str("zz4bb844fb01df2613c0c1fe26eaa701ce46e853").unwrap_err(),
        RitError::Parse
    );
    assert_eq!(
        ObjectID::from_str("754bb844fb01df2613c0c1fe26eaa701ce46e85").unwrap_err(),
        RitError::Parse
    );
}

#[test]
fn kind_tags() {
    assert_eq!(ObjectKind::Blob.as_str(), "blob");
    assert_eq!(ObjectKind::Tree.as_str(), "tree");
    assert_eq!(ObjectKind::Commit.as_str(), "commit");
}

#[test]
fn two_writers_of_one_object_both_succeed() {
    let db = Database::new(b"objects");
    let blob = Blob::new(b"shared".to_vec());
    let p1 = db.placement(&blob, b"101");
    let p2 = db.placement(&blob, b"202");
    assert_ne!(p1.temp_path, p2.temp_path);
    assert_eq!(p1.final_path, p2.final_path);
    let mut fs = MemFs::new();
    // Both writers check before either renames.
    let (mut t1, mut a1) = StoreTask::start();
    let (mut t2, mut a2) = StoreTask::start();
    a1 = t1.step(FsOutcome::Done);
    a2 = t2.step(FsOutcome::Done);
    assert_eq!((a1, a2), (StoreAction::CheckExists, StoreAction::CheckExists));
    a1 = t1.step(FsOutcome::Found(false));
    a2 = t2.step(FsOutcome::Found(false));
    assert_eq!((a1, a2), (StoreAction::CreateTemp, StoreAction::CreateTemp));
    for (t, a, p) in [(&mut t1, &mut a1, &p1), (&mut t2, &mut a2, &p2)] {
        assert!(!fs.files.contains_key(&p.temp_path));
        fs.files.insert(p.temp_path.clone(), Vec::new());
        *a = t.step(FsOutcome::Done);
        assert_eq!(*a, StoreAction::WriteTemp);
    }
    for (t, a, p) in [(&mut t1, &mut a1, &p1), (&mut t2, &mut a2, &p2)] {
        fs.files.insert(p.temp_path.clone(), p.content.clone());
        *a = t.step(FsOutcome::Done);
        let bytes = fs.files.remove(&p.temp_path).unwrap();
        fs.files.insert(p.final_path.clone(), bytes);
        *a = t.step(FsOutcome::Done);
        assert_eq!(*a, StoreAction::Stored);
    }
    assert_eq!(fs.files.len(), 1);
    assert_eq!(inflate(&fs.files[&p1.final_path]), blob.encoded_raw());
}
