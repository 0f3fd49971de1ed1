use vstd::prelude::*;
use crate::bytes::push_all;
use crate::error::RitError;
use crate::path::{join, join_path, SEPARATOR};
use vstd::string::StringSliceAdditionalSpecFns;

verus! {

/// A path component that is dropped when a path is split: empty, or `"."`.
pub open spec fn is_skipped(c: Seq<u8>) -> bool {
    c.len() == 0 || c == seq![46u8]
}

/// `acc` with the component `c` added, unless it is dropped.
pub open spec fn keep(acc: Seq<Seq<u8>>, c: Seq<u8>) -> Seq<Seq<u8>> {
    if is_skipped(c) {
        acc
    } else {
        acc.push(c)
    }
}

/// The bytes of `s` after its last separator.
pub open spec fn pending(s: Seq<u8>) -> Seq<u8>
    decreases s.len(),
{
    if s.len() == 0 {
        Seq::empty()
    } else if s.last() == SEPARATOR {
        Seq::empty()
    } else {
        pending(s.drop_last()).push(s.last())
    }
}

/// The components of `s` that end at one of its separators.
pub open spec fn finished(s: Seq<u8>) -> Seq<Seq<u8>>
    decreases s.len(),
{
    if s.len() == 0 {
        Seq::empty()
    } else if s.last() == SEPARATOR {
        keep(finished(s.drop_last()), pending(s.drop_last()))
    } else {
        finished(s.drop_last())
    }
}

/// The components of a path: the runs of bytes between separators, without
/// empty ones and `"."`.
pub open spec fn components(s: Seq<u8>) -> Seq<Seq<u8>> {
    keep(finished(s), pending(s))
}

/// The views of a sequence of byte vectors.
pub open spec fn parts_view(p: Seq<Vec<u8>>) -> Seq<Seq<u8>> {
    p.map_values(|v: Vec<u8>| v@)
}

/// Whether a path is absolute: it starts with a separator.
pub open spec fn is_absolute(s: Seq<u8>) -> bool {
    s.len() > 0 && s[0] == SEPARATOR
}

/// A file path relative to the workspace root: the bytes it was given,
/// and its components.
#[derive(Debug)]
pub struct WorkspacePath {
    raw: Vec<u8>,
    parts: Vec<Vec<u8>>,
}

impl View for WorkspacePath {
    type V = Seq<Seq<u8>>;

    closed spec fn view(&self) -> Seq<Seq<u8>> {
        parts_view(self.parts@)
    }
}

fn split_components(s: &[u8]) -> (r: Vec<Vec<u8>>)
    ensures
        parts_view(r@) == components(s@),
{
    let mut parts: Vec<Vec<u8>> = Vec::new();
    let mut cur: Vec<u8> = Vec::new();
    let mut i: usize = 0;
    assert(s@.take(0) =~= Seq::<u8>::empty());
    assert(parts_view(parts@) =~= Seq::<Seq<u8>>::empty());
    while i < s.len()
        invariant
            i <= s.len(),
            cur@ == pending(s@.take(i as int)),
            parts_view(parts@) == finished(s@.take(i as int)),
        decreases s.len() - i,
    {
        let ghost prev = s@.take(i as int);
        assert(s@.take(i + 1).drop_last() =~= prev);
        if s[i] == SEPARATOR {
            if cur.len() == 0 || (cur.len() == 1 && cur[0] == 46u8) {
                assert(is_skipped(cur@)) by {
                    if cur.len() == 1 {
                        assert(cur@ =~= seq![46u8]);
                    }
                }
            } else {
                assert(!is_skipped(cur@));
                let ghost pv = parts@;
                parts.push(cur);
                assert(parts_view(parts@) =~= parts_view(pv).push(pending(prev)));
            }
            cur = Vec::new();
            assert(cur@ =~= pending(s@.take(i + 1)));
        } else {
            cur.push(s[i]);
        }
        i = i + 1;
    }
    assert(s@.take(s.len() as int) =~= s@);
    if cur.len() == 0 || (cur.len() == 1 && cur[0] == 46u8) {
        assert(is_skipped(cur@)) by {
            if cur.len() == 1 {
                assert(cur@ =~= seq![46u8]);
            }
        }
    } else {
        let ghost pv = parts@;
        parts.push(cur);
        assert(parts_view(parts@) =~= parts_view(pv).push(pending(s@)));
    }
    parts
}

impl WorkspacePath {
    #[verifier::type_invariant]
    spec fn inv(&self) -> bool {
        parts_view(self.parts@) == components(self.raw@)
    }

    /// The bytes the path was given as.
    pub closed spec fn raw(&self) -> Seq<u8> {
        self.raw@
    }

    /// A path relative to the workspace root, from its raw bytes. An
    /// absolute path is refused.
    pub fn from_bytes(path: &[u8]) -> (r: Result<WorkspacePath, RitError>)
        ensures
            r is Err <==> is_absolute(path@),
            r matches Ok(p) ==> p.raw() == path@ && p@ == components(path@),
            r matches Err(e) ==> e == RitError::Validation,
    {
        if path.len() > 0 && path[0] == SEPARATOR {
            return Err(RitError::Validation);
        }
        Ok(WorkspacePath { raw: vstd::slice::slice_to_vec(path), parts: split_components(path) })
    }

    /// A path relative to the workspace root. An absolute path is refused.
    pub fn new(path: &str) -> (r: Result<WorkspacePath, RitError>)
        ensures
            r is Err <==> is_absolute(path.spec_bytes()),
            r matches Ok(p) ==> p.raw() == path.spec_bytes() && p@ == components(path.spec_bytes()),
            r matches Err(e) ==> e == RitError::Validation,
    {
        WorkspacePath::from_bytes(path.as_bytes())
    }

    /// The components of the path.
    pub fn components(&self) -> (r: &Vec<Vec<u8>>)
        ensures
            parts_view(r@) == self@,
    {
        &self.parts
    }

    /// The path within the workspace, as it was given; its components are
    /// the path's.
    pub fn as_partial_path(&self) -> (r: &[u8])
        ensures
            r@ == self.raw(),
            self@ == components(r@),
    {
        proof {
            use_type_invariant(self);
        }
        self.raw.as_slice()
    }
}

/// The name under which the repository keeps its own files: `".git"`.
pub open spec fn git_dir_name() -> Seq<u8> {
    seq![46u8, 103, 105, 116]
}

/// A component that the workspace listing leaves out: `"."`, `".."` or
/// `".git"`.
pub open spec fn is_ignored_name(c: Seq<u8>) -> bool {
    c == seq![46u8] || c == seq![46u8, 46] || c == git_dir_name()
}

/// The workspace: the files under a root directory.
pub struct Workspace {
    root: Vec<u8>,
}

impl Workspace {
    pub closed spec fn root(&self) -> Seq<u8> {
        self.root@
    }

    /// The workspace rooted at `path`.
    pub fn new(path: &[u8]) -> (r: Workspace)
        ensures
            r.root() == path@,
    {
        Workspace { root: vstd::slice::slice_to_vec(path) }
    }

    /// The full path of a file within the workspace.
    pub fn full_path(&self, sub_path: &WorkspacePath) -> (r: Vec<u8>)
        ensures
            r@ == join(self.root(), sub_path.raw()),
    {
        join_path(self.root.as_slice(), sub_path.as_partial_path())
    }

    /// Whether the listing of the workspace leaves `path` out: its last
    /// component is `"."`, `".."` or `".git"`.
    pub fn ignored(path: &WorkspacePath) -> (r: bool)
        ensures
            r == (path@.len() > 0 && is_ignored_name(path@.last())),
    {
        let parts = path.components();
        if parts.len() == 0 {
            return false;
        }
        let last = parts[parts.len() - 1].as_slice();
        let r = (last.len() == 1 && last[0] == 46u8) || (last.len() == 2 && last[0] == 46u8
            && last[1] == 46u8) || (last.len() == 4 && last[0] == 46u8 && last[1] == 103u8
            && last[2] == 105u8 && last[3] == 116u8);
        proof {
            let l = path@.last();
            assert(l == last@);
            if last.len() == 1 {
                assert(last@ =~= seq![46u8] <==> last[0] == 46u8);
            }
            if last.len() == 2 {
                assert(last@ =~= seq![46u8, 46] <==> (last[0] == 46u8 && last[1] == 46u8));
            }
            if last.len() == 4 {
                assert(last@ =~= git_dir_name() <==> (last[0] == 46u8 && last[1] == 103u8
                    && last[2] == 105u8 && last[3] == 116u8));
            }
        }
        r
    }
}

} // verus!
