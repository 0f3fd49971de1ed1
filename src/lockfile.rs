use vstd::prelude::*;
use crate::bytes::push_all;
use crate::database::FsOutcome;
use crate::error::RitError;
use crate::path::SEPARATOR;
use crate::workspace::pending;

verus! {

/// `".lock"`
pub open spec fn lock_suffix() -> Seq<u8> {
    seq![46u8, 108, 111, 99, 107]
}

/// A path names a file: its last component is neither empty, `"."` nor
/// `".."`.
pub open spec fn names_file(p: Seq<u8>) -> bool {
    let n = pending(p);
    n.len() > 0 && n != seq![46u8] && n != seq![46u8, 46]
}

/// The next file system action of a locked update, or its end.
#[derive(Debug, Clone, Copy, PartialEq, Eq, Structural)]
pub enum LockAction {
    /// Create the lock file, failing if it exists.
    CreateLock,
    /// Write the contents to the lock file.
    WriteLock,
    /// Rename the lock file onto the target: publish and release at once.
    RenameLock,
    /// Remove the lock file, releasing the lock without publishing.
    RemoveLock,
    /// The update is over: the target holds the contents.
    Committed,
    /// The update is over, with this error.
    Abort(RitError),
}

/// The decisions of a locked update, given the outcome of the last action.
/// A lock that is already held fails the update at once; after the lock is
/// taken, any failure releases it before the update fails.
pub open spec fn lock_next(last: LockAction, ev: FsOutcome) -> LockAction {
    match last {
        LockAction::CreateLock => match ev {
            FsOutcome::Done => LockAction::WriteLock,
            FsOutcome::AlreadyExists => LockAction::Abort(RitError::Acquisition),
            _ => LockAction::Abort(RitError::Io),
        },
        LockAction::WriteLock => match ev {
            FsOutcome::Done => LockAction::RenameLock,
            _ => LockAction::RemoveLock,
        },
        LockAction::RenameLock => match ev {
            FsOutcome::Done => LockAction::Committed,
            _ => LockAction::RemoveLock,
        },
        LockAction::RemoveLock => LockAction::Abort(RitError::Io),
        LockAction::Committed => LockAction::Committed,
        LockAction::Abort(e) => LockAction::Abort(e),
    }
}

/// Whether the lock file may exist once `a` was asked for and came out so:
/// from its exclusive creation until it is renamed or removed.
pub open spec fn holds_lock(a: LockAction) -> bool {
    a is WriteLock || a is RenameLock || a is RemoveLock
}

/// An exclusive update of one file: its new contents are written to
/// `<path>.lock`, created exclusively, and renamed onto `<path>`.
pub struct LockFile {
    path: Vec<u8>,
    lock: Vec<u8>,
    contents: Vec<u8>,
    last: LockAction,
}

impl LockFile {
    pub closed spec fn target(&self) -> Seq<u8> {
        self.path@
    }

    pub closed spec fn lock(&self) -> Seq<u8> {
        self.lock@
    }

    pub closed spec fn staged(&self) -> Seq<u8> {
        self.contents@
    }

    pub closed spec fn last(&self) -> LockAction {
        self.last
    }

    /// The lock path of `path`: `path` with `".lock"` appended. A path that
    /// names no file is refused.
    pub fn lock_path(path: &[u8]) -> (r: Result<Vec<u8>, RitError>)
        ensures
            r is Ok <==> names_file(path@),
            r matches Ok(l) ==> l@ == path@ + lock_suffix(),
            r matches Err(e) ==> e == RitError::Validation,
    {
        let mut i: usize = path.len();
        assert(path@.take(i as int) =~= path@);
        while i > 0 && path[i - 1] != SEPARATOR
            invariant
                i <= path.len(),
                pending(path@) == pending(path@.take(i as int)) + path@.skip(i as int),
            decreases i,
        {
            let ghost t = path@.take(i as int);
            assert(t.drop_last() =~= path@.take(i - 1));
            assert(path@.skip(i - 1) =~= seq![path@[i - 1]] + path@.skip(i as int));
            i = i - 1;
        }
        assert(pending(path@.take(i as int)) =~= Seq::<u8>::empty()) by {
            if i > 0 {
                assert(path@.take(i as int).last() == SEPARATOR);
            }
        }
        assert(pending(path@) =~= path@.skip(i as int));
        let n = path.len() - i;
        if n == 0 || (n == 1 && path[i] == 46u8) || (n == 2 && path[i] == 46u8 && path[i + 1]
            == 46u8) {
            proof {
                if n == 1 {
                    assert(pending(path@) =~= seq![46u8]);
                }
                if n == 2 {
                    assert(pending(path@) =~= seq![46u8, 46]);
                }
            }
            return Err(RitError::Validation);
        }
        proof {
            if pending(path@) == seq![46u8] {
                assert(pending(path@)[0] == path@[i as int]);
            }
            if pending(path@) == seq![46u8, 46] {
                assert(pending(path@)[0] == path@[i as int]);
                assert(pending(path@)[1] == path@[i + 1]);
            }
        }
        let mut l = vstd::slice::slice_to_vec(path);
        push_all(&mut l, &[46u8, 108, 111, 99, 107]);
        assert(l@ =~= path@ + lock_suffix());
        Ok(l)
    }

    /// An update of `path` to `contents`, whose first action is to take
    /// the lock.
    pub fn new(path: &[u8], contents: Vec<u8>) -> (r: Result<(LockFile, LockAction), RitError>)
        ensures
            r is Ok <==> names_file(path@),
            r matches Ok(p) ==> {
                &&& p.1 == LockAction::CreateLock
                &&& p.0.last() == p.1
                &&& p.0.target() == path@
                &&& p.0.lock() == path@ + lock_suffix()
                &&& p.0.staged() == contents@
            },
            r matches Err(e) ==> e == RitError::Validation,
    {
        let lock = LockFile::lock_path(path)?;
        let f = LockFile {
            path: vstd::slice::slice_to_vec(path),
            lock,
            contents,
            last: LockAction::CreateLock,
        };
        Ok((f, LockAction::CreateLock))
    }

    /// The file that the update replaces.
    pub fn path(&self) -> (r: &[u8])
        ensures
            r@ == self.target(),
    {
        self.path.as_slice()
    }

    /// The lock file.
    pub fn lock_file(&self) -> (r: &[u8])
        ensures
            r@ == self.lock(),
    {
        self.lock.as_slice()
    }

    /// The contents to publish.
    pub fn contents(&self) -> (r: &[u8])
        ensures
            r@ == self.staged(),
    {
        self.contents.as_slice()
    }

    /// The next action, given the outcome of the last one.
    pub fn step(&mut self, ev: FsOutcome) -> (r: LockAction)
        ensures
            r == lock_next(old(self).last(), ev),
            final(self).last() == r,
            final(self).target() == old(self).target(),
            final(self).lock() == old(self).lock(),
            final(self).staged() == old(self).staged(),
    {
        let next = match self.last {
            LockAction::CreateLock => match ev {
                FsOutcome::Done => LockAction::WriteLock,
                FsOutcome::AlreadyExists => LockAction::Abort(RitError::Acquisition),
                _ => LockAction::Abort(RitError::Io),
            },
            LockAction::WriteLock => match ev {
                FsOutcome::Done => LockAction::RenameLock,
                _ => LockAction::RemoveLock,
            },
            LockAction::RenameLock => match ev {
                FsOutcome::Done => LockAction::Committed,
                _ => LockAction::RemoveLock,
            },
            LockAction::RemoveLock => LockAction::Abort(RitError::Io),
            LockAction::Committed => LockAction::Committed,
            LockAction::Abort(e) => LockAction::Abort(e),
        };
        self.last = next;
        next
    }
}

/// A locked update never ends while it may still hold the lock: from any
/// action that may leave the lock file behind, every outcome leads to an
/// action that renames or removes it, or to the end of an update that had
/// not taken it.
pub proof fn lemma_lock_always_released(last: LockAction, ev: FsOutcome)
    requires
        holds_lock(last),
    ensures
        holds_lock(lock_next(last, ev)) || lock_next(last, ev) is Committed || lock_next(last, ev)
            == LockAction::Abort(RitError::Io),
        last is RemoveLock ==> lock_next(last, ev) == LockAction::Abort(RitError::Io),
        lock_next(last, ev) is Committed ==> last is RenameLock,
{
}

} // verus!
