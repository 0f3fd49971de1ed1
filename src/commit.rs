use vstd::prelude::*;
use crate::author::{ident_text, Author};
use crate::bytes::push_all;
use crate::database::{ObjectID, ObjectKind, Storable};
use crate::error::RitError;
use crate::hex::hex_bytes;
use vstd::utf8::encode_utf8;

verus! {

/// `"parent "`
pub open spec fn parent_word() -> Seq<u8> {
    seq![112u8, 97, 114, 101, 110, 116, 32]
}

/// `"tree "`
pub open spec fn tree_word() -> Seq<u8> {
    seq![116u8, 114, 101, 101, 32]
}

/// `"author "`
pub open spec fn author_word() -> Seq<u8> {
    seq![97u8, 117, 116, 104, 111, 114, 32]
}

/// `"committer "`
pub open spec fn committer_word() -> Seq<u8> {
    seq![99u8, 111, 109, 109, 105, 116, 116, 101, 114, 32]
}

/// The parent line of a commit: `"parent <hex>\n"`, or nothing for the
/// first commit.
pub open spec fn parent_line(parent: Option<Seq<u8>>) -> Seq<u8> {
    match parent {
        Some(p) => parent_word() + hex_bytes(p) + seq![10u8],
        None => Seq::empty(),
    }
}

/// The payload of a commit: the optional parent line, then
/// `"tree <hex>\nauthor <ident>\ncommitter <ident>\n\n<message>"`.
pub open spec fn commit_payload(
    parent: Option<Seq<u8>>,
    tree: Seq<u8>,
    ident: Seq<u8>,
    message: Seq<u8>,
) -> Seq<u8> {
    parent_line(parent) + tree_word() + hex_bytes(tree) + seq![10u8] + author_word() + ident + seq![
        10u8,
    ] + committer_word() + ident + seq![10u8, 10u8] + message
}

/// A snapshot record: the root tree, the parent commit if any, the author
/// and the message.
pub struct Commit {
    message: String,
    data: Vec<u8>,
}

impl Commit {
    pub closed spec fn spec_message(&self) -> Seq<char> {
        self.message@
    }

    /// The commit of the tree `oid` on top of `parent`, by `author`, with
    /// `message`, which must not be empty.
    pub fn new(parent: &Option<ObjectID>, oid: &ObjectID, author: Author, message: String) -> (r:
        Result<Commit, RitError>)
        ensures
            r is Err <==> message@.len() == 0,
            r matches Err(e) ==> e == RitError::Validation,
            r matches Ok(c) ==> {
                &&& c.spec_message() == message@
                &&& c.payload() == commit_payload(
                    match parent {
                        Some(p) => Some(p@),
                        None => None,
                    },
                    oid@,
                    ident_text(author.name(), author.email(), author.time()),
                    encode_utf8(message@),
                )
            },
    {
        if message.as_str().is_empty() {
            return Err(RitError::Validation);
        }
        let ident = author.to_bytes();
        let mut data: Vec<u8> = Vec::new();
        match parent {
            Some(p) => {
                push_all(&mut data, &[112u8, 97, 114, 101, 110, 116, 32]);
                push_all(&mut data, p.hex().as_slice());
                data.push(10u8);
            },
            None => {},
        }
        push_all(&mut data, &[116u8, 114, 101, 101, 32]);
        push_all(&mut data, oid.hex().as_slice());
        data.push(10u8);
        push_all(&mut data, &[97u8, 117, 116, 104, 111, 114, 32]);
        push_all(&mut data, ident.as_slice());
        data.push(10u8);
        push_all(&mut data, &[99u8, 111, 109, 109, 105, 116, 116, 101, 114, 32]);
        push_all(&mut data, ident.as_slice());
        data.push(10u8);
        data.push(10u8);
        push_all(&mut data, message.as_str().as_bytes());
        assert(data@ =~= commit_payload(
            match parent {
                Some(p) => Some(p@),
                None => None,
            },
            oid@,
            ident@,
            encode_utf8(message@),
        ));
        Ok(Commit { message, data })
    }

    /// The message.
    pub fn message(&self) -> (r: &str)
        ensures
            r@ == self.spec_message(),
    {
        self.message.as_str()
    }
}

impl Storable for Commit {
    open spec fn kind(&self) -> ObjectKind {
        ObjectKind::Commit
    }

    closed spec fn payload(&self) -> Seq<u8> {
        self.data@
    }

    fn object_kind(&self) -> (k: ObjectKind) {
        ObjectKind::Commit
    }

    fn data(&self) -> (r: &Vec<u8>) {
        &self.data
    }
}

} // verus!

verus! {

/// The next step of recording a commit, or its end.
#[derive(Debug, Clone, Copy, PartialEq, Eq, Structural)]
pub enum CommitStep {
    /// Store the blob of this index.
    StoreBlob(usize),
    /// Store the tree of this index, in the order `Tree::build` gives.
    StoreTree(usize),
    /// Store the commit object.
    StoreCommit,
    /// Point HEAD at the commit.
    UpdateHead,
    /// The commit is recorded.
    Done,
    /// Recording stopped with this error.
    Abort(RitError),
}

/// The first step after the blobs: the first tree, or the commit where
/// there is no tree.
pub open spec fn after_blobs(trees: nat) -> CommitStep {
    if trees > 0 {
        CommitStep::StoreTree(0)
    } else {
        CommitStep::StoreCommit
    }
}

/// The first step of recording a commit.
pub open spec fn commit_first(blobs: nat, trees: nat) -> CommitStep {
    if blobs > 0 {
        CommitStep::StoreBlob(0)
    } else {
        after_blobs(trees)
    }
}

/// The step after `last`, given its failure if it failed.
pub open spec fn commit_next(blobs: nat, trees: nat, last: CommitStep, failure: Option<RitError>) -> CommitStep {
    match last {
        CommitStep::Done => CommitStep::Done,
        CommitStep::Abort(e) => CommitStep::Abort(e),
        _ => match failure {
            Some(e) => CommitStep::Abort(e),
            None => match last {
                CommitStep::StoreBlob(k) => if k + 1 < blobs {
                    CommitStep::StoreBlob((k + 1) as usize)
                } else {
                    after_blobs(trees)
                },
                CommitStep::StoreTree(k) => if k + 1 < trees {
                    CommitStep::StoreTree((k + 1) as usize)
                } else {
                    CommitStep::StoreCommit
                },
                CommitStep::StoreCommit => CommitStep::UpdateHead,
                _ => CommitStep::Done,
            },
        },
    }
}

/// A step that refers to an existing blob or tree.
pub open spec fn step_in_range(blobs: nat, trees: nat, s: CommitStep) -> bool {
    match s {
        CommitStep::StoreBlob(k) => k < blobs,
        CommitStep::StoreTree(k) => k < trees,
        _ => true,
    }
}

/// The order of recording a commit: every blob, then every tree in the
/// order given (each after the trees it refers to), then the commit object,
/// then HEAD. A failure stops it with that failure.
pub struct CommitTask {
    blobs: usize,
    trees: usize,
    last: CommitStep,
}

impl CommitTask {
    pub closed spec fn blobs(&self) -> nat {
        self.blobs as nat
    }

    pub closed spec fn trees(&self) -> nat {
        self.trees as nat
    }

    pub closed spec fn last(&self) -> CommitStep {
        self.last
    }

    /// Recording a commit with `blobs` blobs and `trees` trees to store.
    pub fn start(blobs: usize, trees: usize) -> (r: (CommitTask, CommitStep))
        ensures
            r.1 == commit_first(blobs as nat, trees as nat),
            r.0.last() == r.1,
            r.0.blobs() == blobs,
            r.0.trees() == trees,
    {
        let first = if blobs > 0 {
            CommitStep::StoreBlob(0)
        } else if trees > 0 {
            CommitStep::StoreTree(0)
        } else {
            CommitStep::StoreCommit
        };
        (CommitTask { blobs, trees, last: first }, first)
    }

    /// The next step, given the failure of the last one if it failed.
    pub fn step(&mut self, failure: Option<RitError>) -> (r: CommitStep)
        requires
            step_in_range(old(self).blobs(), old(self).trees(), old(self).last()),
        ensures
            r == commit_next(old(self).blobs(), old(self).trees(), old(self).last(), failure),
            step_in_range(old(self).blobs(), old(self).trees(), r),
            final(self).last() == r,
            final(self).blobs() == old(self).blobs(),
            final(self).trees() == old(self).trees(),
    {
        let next = match self.last {
            CommitStep::Done => CommitStep::Done,
            CommitStep::Abort(e) => CommitStep::Abort(e),
            _ => match failure {
                Some(e) => CommitStep::Abort(e),
                None => match self.last {
                    CommitStep::StoreBlob(k) => if k + 1 < self.blobs {
                        CommitStep::StoreBlob(k + 1)
                    } else if self.trees > 0 {
                        CommitStep::StoreTree(0)
                    } else {
                        CommitStep::StoreCommit
                    },
                    CommitStep::StoreTree(k) => if k + 1 < self.trees {
                        CommitStep::StoreTree(k + 1)
                    } else {
                        CommitStep::StoreCommit
                    },
                    CommitStep::StoreCommit => CommitStep::UpdateHead,
                    _ => CommitStep::Done,
                },
            },
        };
        self.last = next;
        next
    }
}

/// Recording a commit keeps the store closed under references and HEAD on
/// stored commits: a blob or tree is stored only after every earlier one
/// succeeded, the first tree only after the last blob, the commit only
/// after the last tree (or the last blob, where there is no tree), and HEAD
/// only after the commit was stored.
pub proof fn lemma_commit_order(blobs: nat, trees: nat, last: CommitStep, failure: Option<RitError>)
    requires
        blobs <= usize::MAX,
        trees <= usize::MAX,
        step_in_range(blobs, trees, last),
    ensures
        ({
            let next = commit_next(blobs, trees, last, failure);
            &&& next == CommitStep::UpdateHead ==> last == CommitStep::StoreCommit && failure is None
            &&& next == CommitStep::StoreCommit ==> failure is None && (last == CommitStep::StoreTree(
                (trees - 1) as usize,
            ) || (trees == 0 && blobs > 0 && last == CommitStep::StoreBlob((blobs - 1) as usize)))
            &&& next matches CommitStep::StoreTree(k) ==> failure is None && (if k > 0 {
                last == CommitStep::StoreTree((k - 1) as usize)
            } else {
                blobs > 0 && last == CommitStep::StoreBlob((blobs - 1) as usize)
            })
            &&& next matches CommitStep::StoreBlob(k) ==> failure is None && k > 0 && last
                == CommitStep::StoreBlob((k - 1) as usize)
            &&& next == CommitStep::Done ==> last == CommitStep::UpdateHead || last
                == CommitStep::Done
        }),
{
}

} // verus!

verus! {

/// A commit names its parent first: with a parent, its payload starts with
/// `"parent <parent hex>\ntree <tree hex>\n"`; without one, it starts with
/// `"tree <tree hex>\n"`, and its header lines up to the message are the
/// tree, author and committer lines alone.
pub proof fn lemma_commit_header(
    parent: Option<Seq<u8>>,
    tree: Seq<u8>,
    ident: Seq<u8>,
    message: Seq<u8>,
)
    ensures
        parent matches Some(p) ==> {
            let head = parent_word() + hex_bytes(p) + seq![10u8] + tree_word() + hex_bytes(tree)
                + seq![10u8];
            commit_payload(parent, tree, ident, message).take(head.len() as int) == head
        },
        parent is None ==> commit_payload(parent, tree, ident, message) == tree_word() + hex_bytes(
            tree,
        ) + seq![10u8] + author_word() + ident + seq![10u8] + committer_word() + ident + seq![
            10u8,
            10u8,
        ] + message,
{
    if let Some(p) = parent {
        let head = parent_word() + hex_bytes(p) + seq![10u8] + tree_word() + hex_bytes(tree) + seq![
            10u8,
        ];
        let rest = author_word() + ident + seq![10u8] + committer_word() + ident + seq![10u8, 10u8]
            + message;
        assert(commit_payload(parent, tree, ident, message) =~= head + rest);
        assert((head + rest).take(head.len() as int) =~= head);
    } else {
        assert(commit_payload(parent, tree, ident, message) =~= tree_word() + hex_bytes(tree) + seq![
            10u8,
        ] + author_word() + ident + seq![10u8] + committer_word() + ident + seq![10u8, 10u8]
            + message);
    }
}

} // verus!
