use vstd::prelude::*;
use crate::database::{ObjectID, OID_LEN};
use crate::error::RitError;
use crate::hex::{hex_bytes, hex_decodable, hex_decoded};
use crate::lockfile::{names_file, lock_suffix, LockAction, LockFile};
use crate::path::{join, join_path};

verus! {

/// `"HEAD"`
pub open spec fn head_name() -> Seq<u8> {
    seq![72u8, 69, 65, 68]
}

/// ASCII whitespace: space, tab, line feed, vertical tab, form feed and
/// carriage return.
pub open spec fn is_space(b: u8) -> bool {
    b == 32 || (9 <= b <= 13)
}

/// `s` without its leading whitespace.
pub open spec fn trim_start(s: Seq<u8>) -> Seq<u8>
    decreases s.len(),
{
    if s.len() > 0 && is_space(s[0]) {
        trim_start(s.drop_first())
    } else {
        s
    }
}

/// `s` without its trailing whitespace.
pub open spec fn trim_end(s: Seq<u8>) -> Seq<u8>
    decreases s.len(),
{
    if s.len() > 0 && is_space(s.last()) {
        trim_end(s.drop_last())
    } else {
        s
    }
}

/// `s` without leading and trailing whitespace.
pub open spec fn trim(s: Seq<u8>) -> Seq<u8> {
    trim_end(trim_start(s))
}

/// Whether the contents of HEAD name an object: hex of `OID_LEN` bytes once
/// trimmed.
pub open spec fn head_parses(s: Seq<u8>) -> bool {
    hex_decodable(trim(s)) && trim(s).len() == 2 * OID_LEN
}

/// `s` without leading and trailing whitespace.
pub fn trim_space(s: &[u8]) -> (r: &[u8])
    ensures
        r@ == trim(s@),
{
    let mut i: usize = 0;
    assert(s@.skip(0) =~= s@);
    while i < s.len() && (s[i] == 32u8 || (9u8 <= s[i] && s[i] <= 13u8))
        invariant
            i <= s.len(),
            trim_start(s@) == trim_start(s@.skip(i as int)),
        decreases s.len() - i,
    {
        assert(s@.skip(i as int).drop_first() =~= s@.skip(i + 1));
        i = i + 1;
    }
    let mut j: usize = s.len();
    assert(s@.skip(i as int) =~= s@.subrange(i as int, j as int));
    while j > i && (s[j - 1] == 32u8 || (9u8 <= s[j - 1] && s[j - 1] <= 13u8))
        invariant
            i <= j <= s.len(),
            trim(s@) == trim_end(s@.subrange(i as int, j as int)),
        decreases j,
    {
        assert(s@.subrange(i as int, j as int).drop_last() =~= s@.subrange(i as int, j - 1));
        j = j - 1;
    }
    vstd::slice::slice_subrange(s, i, j)
}

/// The references of a repository: the HEAD pointer in a directory.
pub struct Refs {
    path: Vec<u8>,
}

impl Refs {
    pub closed spec fn dir(&self) -> Seq<u8> {
        self.path@
    }

    /// The references kept in the directory `path`.
    pub fn new(path: &[u8]) -> (r: Refs)
        ensures
            r.dir() == path@,
    {
        Refs { path: vstd::slice::slice_to_vec(path) }
    }

    /// The path of HEAD.
    pub fn head_path(&self) -> (r: Vec<u8>)
        ensures
            r@ == join(self.dir(), head_name()),
    {
        let name: &[u8] = &[72u8, 69, 65, 68];
        assert(name@ =~= head_name());
        join_path(self.path.as_slice(), name)
    }

    /// The locked update that points HEAD at `oid`: it writes the id in hex.
    pub fn update_head(&self, oid: &ObjectID) -> (r: Result<(LockFile, LockAction), RitError>)
        ensures
            r is Ok <==> names_file(join(self.dir(), head_name())),
            r matches Ok(p) ==> {
                &&& p.1 == LockAction::CreateLock
                &&& p.0.last() == p.1
                &&& p.0.target() == join(self.dir(), head_name())
                &&& p.0.lock() == join(self.dir(), head_name()) + lock_suffix()
                &&& p.0.staged() == hex_bytes(oid@)
            },
            r matches Err(e) ==> e == RitError::Validation,
    {
        let head = self.head_path();
        LockFile::new(head.as_slice(), oid.hex())
    }

    /// The id that HEAD holds, given its contents: hex of a full id,
    /// trimmed of surrounding whitespace.
    pub fn parse_head(contents: &[u8]) -> (r: Result<ObjectID, RitError>)
        ensures
            r is Ok <==> head_parses(contents@),
            r matches Ok(o) ==> o@ == hex_decoded(trim(contents@)),
            r matches Err(e) ==> e == RitError::Parse,
    {
        ObjectID::from_hex_bytes(trim_space(contents))
    }

    /// The id that HEAD holds, given its contents, or `None` where HEAD does
    /// not exist: that is the repository before its first commit.
    pub fn read_head(contents: Option<&[u8]>) -> (r: Result<ObjectID, RitError>)
        ensures
            contents is None ==> r == Err::<ObjectID, RitError>(RitError::NotFound),
            contents matches Some(c) ==> {
                &&& r is Ok <==> head_parses(c@)
                &&& r matches Ok(o) ==> o@ == hex_decoded(trim(c@))
                &&& r matches Err(e) ==> e == RitError::Parse
            },
    {
        match contents {
            None => Err(RitError::NotFound),
            Some(c) => Refs::parse_head(c),
        }
    }

    /// The parent of the next commit, given the contents of HEAD or `None`
    /// where it does not exist: no parent before the first commit, else the
    /// id that HEAD holds. Malformed contents are an error.
    pub fn commit_parent(contents: Option<&[u8]>) -> (r: Result<Option<ObjectID>, RitError>)
        ensures
            contents is None ==> r matches Ok(None),
            contents matches Some(c) ==> {
                &&& r is Ok <==> head_parses(c@)
                &&& r matches Ok(o) ==> o matches Some(id) && id@ == hex_decoded(trim(c@))
                &&& r matches Err(e) ==> e == RitError::Parse
            },
    {
        match Refs::read_head(contents) {
            Ok(id) => Ok(Some(id)),
            Err(RitError::NotFound) => Ok(None),
            Err(e) => Err(e),
        }
    }
}

} // verus!
