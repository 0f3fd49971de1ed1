use vstd::prelude::*;
use crate::bytes::{decimal, push_all, push_decimal};
use crate::error::RitError;
use crate::hex::{decode_hex, encode_hex, hex_ascii, hex_bytes, hex_decodable, hex_decoded, hex_text};
use crate::path::{join, join_path};
use vstd::string::StringSliceAdditionalSpecFns;

verus! {

/// The number of bytes in an object id.
pub const OID_LEN: usize = 20;

/// What the SHA-1 digest of the bytes is.
pub uninterp spec fn sha1_of(b: Seq<u8>) -> Seq<u8>;

/// What the zlib stream of the bytes is, at flate2's fast compression level.
pub uninterp spec fn zlib_fast_of(b: Seq<u8>) -> Seq<u8>;

/// Relies on `sha1::Sha1` through `digest::Digest::digest`: the SHA-1 digest
/// of the bytes, which is 20 bytes long.
#[verifier::external_body]
fn sha1_digest(b: &[u8]) -> (r: Vec<u8>)
    ensures
        r@ == sha1_of(b@),
        r@.len() == OID_LEN,
{
    <sha1::Sha1 as sha1::Digest>::digest(b).to_vec()
}

/// Relies on `flate2::write::ZlibEncoder` with `flate2::Compression::fast()`:
/// the zlib stream of the bytes. The encoder writes into a `Vec`, which
/// never refuses bytes, and deflate fails only on bad parameters, so neither
/// `write_all` nor `finish` fails here.
#[verifier::external_body]
fn zlib_fast(b: &[u8]) -> (r: Vec<u8>)
    ensures
        r@ == zlib_fast_of(b@),
{
    let mut encoder = flate2::write::ZlibEncoder::new(Vec::new(), flate2::Compression::fast());
    std::io::Write::write_all(&mut encoder, b).expect("writing into memory");
    encoder.finish().expect("writing into memory")
}

/// The three kinds of stored objects.
#[derive(Debug, Clone, Copy, PartialEq, Eq, Structural)]
pub enum ObjectKind {
    Blob,
    Tree,
    Commit,
}

/// The ASCII type tag of a kind of object.
pub open spec fn kind_tag(k: ObjectKind) -> Seq<u8> {
    match k {
        ObjectKind::Blob => seq![98u8, 108, 111, 98],
        ObjectKind::Tree => seq![116u8, 114, 101, 101],
        ObjectKind::Commit => seq![99u8, 111, 109, 109, 105, 116],
    }
}

/// The canonical encoding of an object: `"<type> <length>\0<payload>"`.
pub open spec fn encoding(k: ObjectKind, payload: Seq<u8>) -> Seq<u8> {
    kind_tag(k) + seq![32u8] + decimal(payload.len()) + seq![0u8] + payload
}

/// The id of an object: the digest of its canonical encoding.
pub open spec fn object_id(k: ObjectKind, payload: Seq<u8>) -> Seq<u8> {
    sha1_of(encoding(k, payload))
}

impl ObjectKind {
    /// The type tag as text.
    pub fn as_str(&self) -> (r: &'static str)
        ensures
            r@ == kind_tag(*self).map_values(|c: u8| c as char),
    {
        match self {
            ObjectKind::Blob => {
                proof {
                    reveal_strlit("blob");
                }
                assert("blob"@ =~= kind_tag(*self).map_values(|c: u8| c as char));
                "blob"
            },
            ObjectKind::Tree => {
                proof {
                    reveal_strlit("tree");
                }
                assert("tree"@ =~= kind_tag(*self).map_values(|c: u8| c as char));
                "tree"
            },
            ObjectKind::Commit => {
                proof {
                    reveal_strlit("commit");
                }
                assert("commit"@ =~= kind_tag(*self).map_values(|c: u8| c as char));
                "commit"
            },
        }
    }

    /// Appends the type tag to `out`.
    pub fn push_tag(&self, out: &mut Vec<u8>)
        ensures
            final(out)@ == old(out)@ + kind_tag(*self),
    {
        let tag: &[u8] = match self {
            ObjectKind::Blob => &[98u8, 108, 111, 98],
            ObjectKind::Tree => &[116u8, 114, 101, 101],
            ObjectKind::Commit => &[99u8, 111, 109, 109, 105, 116],
        };
        assert(tag@ =~= kind_tag(*self));
        push_all(out, tag);
    }
}

/// The content hash that names an object: always `OID_LEN` bytes.
#[derive(Debug, PartialEq, Eq, PartialOrd, Ord)]
pub struct ObjectID {
    id: Vec<u8>,
}

impl View for ObjectID {
    type V = Seq<u8>;

    closed spec fn view(&self) -> Seq<u8> {
        self.id@
    }
}

impl Clone for ObjectID {
    fn clone(&self) -> (r: Self)
        ensures
            r@ == self@,
    {
        proof {
            use_type_invariant(self);
        }
        ObjectID { id: vstd::slice::slice_to_vec(self.id.as_slice()) }
    }
}

impl ObjectID {
    #[verifier::type_invariant]
    spec fn inv(&self) -> bool {
        self.id@.len() == OID_LEN
    }

    /// Every id is `OID_LEN` bytes long.
    pub fn len_is_fixed(&self)
        ensures
            self@.len() == OID_LEN,
    {
        proof {
            use_type_invariant(self);
        }
    }

    /// The id of an object of kind `k` whose payload is `data`.
    pub fn of_payload(k: ObjectKind, data: &[u8]) -> (r: ObjectID)
        ensures
            r@ == object_id(k, data@),
    {
        let enc = encode_object(k, data);
        ObjectID { id: sha1_digest(enc.as_slice()) }
    }

    /// Parses an id from its hex text, given as bytes: the text must be hex
    /// of exactly `OID_LEN` bytes.
    pub fn from_hex_bytes(s: &[u8]) -> (r: Result<ObjectID, RitError>)
        ensures
            r is Ok <==> hex_decodable(s@) && s@.len() == 2 * OID_LEN,
            r matches Ok(o) ==> o@ == hex_decoded(s@),
            r matches Err(e) ==> e == RitError::Parse,
    {
        match decode_hex(s) {
            Some(id) => {
                if id.len() != OID_LEN {
                    Err(RitError::Parse)
                } else {
                    Ok(ObjectID { id })
                }
            },
            None => Err(RitError::Parse),
        }
    }

    /// Parses an id from its hex text.
    pub fn from_str(s: &str) -> (r: Result<ObjectID, RitError>)
        ensures
            r is Ok <==> hex_decodable(s.spec_bytes()) && s.spec_bytes().len() == 2 * OID_LEN,
            r matches Ok(o) ==> o@ == hex_decoded(s.spec_bytes()),
            r matches Err(e) ==> e == RitError::Parse,
    {
        ObjectID::from_hex_bytes(s.as_bytes())
    }

    /// The raw bytes of the id.
    pub fn as_bytes(&self) -> (r: &[u8])
        ensures
            r@ == self@,
    {
        self.id.as_slice()
    }

    /// The id in lowercase hex.
    pub fn as_str(&self) -> (r: String)
        ensures
            r@ == hex_text(self@),
    {
        encode_hex(self.id.as_slice())
    }

    /// The id in lowercase hex, as ASCII bytes.
    pub fn hex(&self) -> (r: Vec<u8>)
        ensures
            r@ == hex_bytes(self@),
    {
        hex_ascii(self.id.as_slice())
    }
}

/// The canonical encoding of an object of kind `k` with payload `data`.
pub fn encode_object(k: ObjectKind, data: &[u8]) -> (r: Vec<u8>)
    ensures
        r@ == encoding(k, data@),
{
    let mut content: Vec<u8> = Vec::new();
    k.push_tag(&mut content);
    content.push(32u8);
    push_decimal(&mut content, data.len() as u64);
    content.push(0u8);
    push_all(&mut content, data);
    content
}

/// An entity which may be stored within the object database: a kind and a
/// payload, from which its encoding and its id follow.
pub trait Storable {
    spec fn kind(&self) -> ObjectKind;

    spec fn payload(&self) -> Seq<u8>;

    /// The kind of object.
    fn object_kind(&self) -> (k: ObjectKind)
        ensures
            k == self.kind(),
    ;

    /// The payload bytes.
    fn data(&self) -> (r: &Vec<u8>)
        ensures
            r@ == self.payload(),
    ;

    /// The type tag as text.
    fn type_tag(&self) -> (r: &'static str)
        ensures
            r@ == kind_tag(self.kind()).map_values(|c: u8| c as char),
    {
        self.object_kind().as_str()
    }

    /// The canonical encoding: `"<type> <length>\0<payload>"`.
    fn encoded_raw(&self) -> (r: Vec<u8>)
        ensures
            r@ == encoding(self.kind(), self.payload()),
    {
        encode_object(self.object_kind(), self.data().as_slice())
    }

    /// The persisted form: the canonical encoding, compressed.
    fn serialize(&self) -> (r: Vec<u8>)
        ensures
            r@ == zlib_fast_of(encoding(self.kind(), self.payload())),
    {
        let content = self.encoded_raw();
        zlib_fast(content.as_slice())
    }

    /// The id of the object.
    fn oid(&self) -> (r: ObjectID)
        ensures
            r@ == object_id(self.kind(), self.payload()),
    {
        ObjectID::of_payload(self.object_kind(), self.data().as_slice())
    }
}

/// The contents of a file.
pub struct Blob {
    data: Vec<u8>,
}

impl Blob {
    pub fn new(data: Vec<u8>) -> (r: Blob)
        ensures
            r.payload() == data@,
    {
        Blob { data }
    }
}

impl Storable for Blob {
    open spec fn kind(&self) -> ObjectKind {
        ObjectKind::Blob
    }

    closed spec fn payload(&self) -> Seq<u8> {
        self.data@
    }

    fn object_kind(&self) -> (k: ObjectKind) {
        ObjectKind::Blob
    }

    fn data(&self) -> (r: &Vec<u8>) {
        &self.data
    }
}

} // verus!

verus! {

/// Where and what the store writes for one object.
pub struct ObjectPlacement {
    /// The shard directory, named by the first two hex digits of the id.
    pub dir: Vec<u8>,
    /// The temporary file of this writer, created exclusively and then
    /// renamed.
    pub temp_path: Vec<u8>,
    /// The final path, named by the remaining hex digits.
    pub final_path: Vec<u8>,
    /// The compressed canonical encoding.
    pub content: Vec<u8>,
}

/// The suffix of a temporary object file: `".tmp"`.
pub open spec fn temp_suffix() -> Seq<u8> {
    seq![46u8, 116, 109, 112]
}

/// The shard directory of the object with id `id` under `root`.
pub open spec fn shard_dir(root: Seq<u8>, id: Seq<u8>) -> Seq<u8> {
    join(root, hex_bytes(id).take(2))
}

/// The path of the object with id `id` under `root`.
pub open spec fn object_path(root: Seq<u8>, id: Seq<u8>) -> Seq<u8> {
    join(shard_dir(root, id), hex_bytes(id).skip(2))
}

/// The temporary path that the writer with token `token` uses while
/// storing the object with id `id`.
pub open spec fn object_temp_path(root: Seq<u8>, id: Seq<u8>, token: Seq<u8>) -> Seq<u8> {
    join(shard_dir(root, id), hex_bytes(id).skip(2) + seq![46u8] + token + temp_suffix())
}

/// The object database: objects stored content-addressed under a root.
pub struct Database {
    root: Vec<u8>,
}

impl Database {
    pub closed spec fn root(&self) -> Seq<u8> {
        self.root@
    }

    /// A database rooted at `path`.
    pub fn new(path: &[u8]) -> (r: Database)
        ensures
            r.root() == path@,
    {
        Database { root: vstd::slice::slice_to_vec(path) }
    }

    /// Where the object goes and the bytes that go there.
    ///
    /// The temporary file is named by the id and by `token`, which the
    /// writer makes unique to itself, so that two writers of one object
    /// never contend for one temporary file.
    pub fn placement<T: Storable>(&self, object: &T, token: &[u8]) -> (p: ObjectPlacement)
        ensures
            ({
                let id = object_id(object.kind(), object.payload());
                &&& p.dir@ == shard_dir(self.root(), id)
                &&& p.final_path@ == object_path(self.root(), id)
                &&& p.temp_path@ == object_temp_path(self.root(), id, token@)
                &&& p.content@ == zlib_fast_of(encoding(object.kind(), object.payload()))
            }),
    {
        let content = object.serialize();
        let oid = object.oid();
        oid.len_is_fixed();
        let hex = oid.hex();
        let prefix = vstd::slice::slice_subrange(hex.as_slice(), 0, 2);
        let suffix = vstd::slice::slice_subrange(hex.as_slice(), 2, hex.len());
        let dir = join_path(self.root.as_slice(), prefix);
        let final_path = join_path(dir.as_slice(), suffix);
        let mut temp_name = vstd::slice::slice_to_vec(suffix);
        temp_name.push(46u8);
        push_all(&mut temp_name, token);
        push_all(&mut temp_name, &[46u8, 116, 109, 112]);
        let temp_path = join_path(dir.as_slice(), temp_name.as_slice());
        proof {
            let id = oid@;
            assert(prefix@ =~= hex_bytes(id).take(2));
            assert(suffix@ =~= hex_bytes(id).skip(2));
            assert(temp_name@ =~= hex_bytes(id).skip(2) + seq![46u8] + token@ + temp_suffix());
        }
        ObjectPlacement { dir, temp_path, final_path, content }
    }
}

/// What the file system reported for the last action.
#[derive(Debug, Clone, Copy, PartialEq, Eq, Structural)]
pub enum FsOutcome {
    /// The action succeeded.
    Done,
    /// An existence check: whether the path exists.
    Found(bool),
    /// An exclusive creation found the file already there.
    AlreadyExists,
    /// The action failed otherwise.
    Failed,
}

/// The next file system action of a store, or its end.
#[derive(Debug, Clone, Copy, PartialEq, Eq, Structural)]
pub enum StoreAction {
    /// Create the shard directory and its parents.
    CreateDir,
    /// Check whether the final path exists.
    CheckExists,
    /// Create the temporary file, failing if it exists.
    CreateTemp,
    /// Write the content to the temporary file.
    WriteTemp,
    /// Rename the temporary file onto the final path.
    RenameTemp,
    /// The store is over: the object is in place.
    Stored,
    /// The store is over, with this error.
    Abort(RitError),
}

/// The stored decisions of a store: the action that was last asked for.
pub open spec fn store_next(last: StoreAction, ev: FsOutcome) -> StoreAction {
    match last {
        StoreAction::CreateDir => match ev {
            FsOutcome::Done => StoreAction::CheckExists,
            _ => StoreAction::Abort(RitError::Io),
        },
        StoreAction::CheckExists => match ev {
            FsOutcome::Found(true) => StoreAction::Stored,
            FsOutcome::Found(false) => StoreAction::CreateTemp,
            _ => StoreAction::Abort(RitError::Io),
        },
        StoreAction::CreateTemp => match ev {
            FsOutcome::Done => StoreAction::WriteTemp,
            _ => StoreAction::Abort(RitError::Io),
        },
        StoreAction::WriteTemp => match ev {
            FsOutcome::Done => StoreAction::RenameTemp,
            _ => StoreAction::Abort(RitError::Io),
        },
        StoreAction::RenameTemp => match ev {
            FsOutcome::Done => StoreAction::Stored,
            _ => StoreAction::Abort(RitError::Io),
        },
        StoreAction::Stored => StoreAction::Stored,
        StoreAction::Abort(e) => StoreAction::Abort(e),
    }
}

/// The decisions of storing one object: make the shard directory; if the
/// object is already there, stop with success; otherwise write a temporary
/// file created exclusively and rename it into place. Each failure ends the
/// store with an I/O error.
pub struct StoreTask {
    last: StoreAction,
}

impl StoreTask {
    pub closed spec fn last(&self) -> StoreAction {
        self.last
    }

    /// A store that first asks for the shard directory.
    pub fn start() -> (r: (StoreTask, StoreAction))
        ensures
            r.1 == StoreAction::CreateDir,
            r.0.last() == r.1,
    {
        (StoreTask { last: StoreAction::CreateDir }, StoreAction::CreateDir)
    }

    /// The next action, given the outcome of the last one.
    pub fn step(&mut self, ev: FsOutcome) -> (r: StoreAction)
        ensures
            r == store_next(old(self).last(), ev),
            final(self).last() == r,
    {
        let next = match self.last {
            StoreAction::CreateDir => match ev {
                FsOutcome::Done => StoreAction::CheckExists,
                _ => StoreAction::Abort(RitError::Io),
            },
            StoreAction::CheckExists => match ev {
                FsOutcome::Found(true) => StoreAction::Stored,
                FsOutcome::Found(false) => StoreAction::CreateTemp,
                _ => StoreAction::Abort(RitError::Io),
            },
            StoreAction::CreateTemp => match ev {
                FsOutcome::Done => StoreAction::WriteTemp,
                _ => StoreAction::Abort(RitError::Io),
            },
            StoreAction::WriteTemp => match ev {
                FsOutcome::Done => StoreAction::RenameTemp,
                _ => StoreAction::Abort(RitError::Io),
            },
            StoreAction::RenameTemp => match ev {
                FsOutcome::Done => StoreAction::Stored,
                _ => StoreAction::Abort(RitError::Io),
            },
            StoreAction::Stored => StoreAction::Stored,
            StoreAction::Abort(e) => StoreAction::Abort(e),
        };
        self.last = next;
        next
    }
}

} // verus!

verus! {

/// An object's id depends on its kind and payload alone: two objects with
/// the same content have the same id and are stored at the same place with
/// the same bytes.
pub proof fn lemma_same_content_same_id<A: Storable, B: Storable>(root: Seq<u8>, a: &A, b: &B)
    requires
        a.kind() == b.kind(),
        a.payload() == b.payload(),
    ensures
        object_id(a.kind(), a.payload()) == object_id(b.kind(), b.payload()),
        object_path(root, object_id(a.kind(), a.payload())) == object_path(
            root,
            object_id(b.kind(), b.payload()),
        ),
        zlib_fast_of(encoding(a.kind(), a.payload())) == zlib_fast_of(
            encoding(b.kind(), b.payload()),
        ),
{
}

/// Storing is idempotent: when the object is found in place, the store ends
/// successfully without writing, and a write is only ever begun after the
/// check found nothing.
pub proof fn lemma_store_present_is_noop(last: StoreAction, ev: FsOutcome)
    ensures
        store_next(StoreAction::CheckExists, FsOutcome::Found(true)) == StoreAction::Stored,
        store_next(last, ev) == StoreAction::CreateTemp ==> last == StoreAction::CheckExists && ev
            == FsOutcome::Found(false),
{
}

} // verus!
