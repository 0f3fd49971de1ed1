use vstd::prelude::*;
use vstd::relations::{sorted_by, total_ordering};
use crate::bytes::{
    bytes_equal, bytes_less, bytes_lt, lemma_bytes_lt_asymmetric, lemma_bytes_lt_irreflexive,
    lemma_bytes_lt_total, lemma_bytes_lt_transitive,
};
use crate::database::ObjectID;

verus! {

/// The permission tag of a tree entry.
#[derive(Debug, Clone, Copy, PartialEq, Eq, PartialOrd, Ord, Structural)]
pub enum Mode {
    ReadWriteExecute,
    ReadWrite,
    Directory,
}

/// The mode string of a tree entry, in ASCII: `"100755"`, `"100644"` or
/// `"040000"`.
pub open spec fn mode_bytes(m: Mode) -> Seq<u8> {
    match m {
        Mode::ReadWriteExecute => seq![49u8, 48, 48, 55, 53, 53],
        Mode::ReadWrite => seq![49u8, 48, 48, 54, 52, 52],
        Mode::Directory => seq![48u8, 52, 48, 48, 48, 48],
    }
}

/// The position of a mode in the order of modes.
pub open spec fn mode_rank(m: Mode) -> int {
    match m {
        Mode::ReadWriteExecute => 0,
        Mode::ReadWrite => 1,
        Mode::Directory => 2,
    }
}

impl Mode {
    /// The mode string.
    pub fn as_str(&self) -> (r: &'static str)
        ensures
            r@ == mode_bytes(*self).map_values(|c: u8| c as char),
    {
        match self {
            Mode::ReadWriteExecute => {
                proof {
                    reveal_strlit("100755");
                }
                assert("100755"@ =~= mode_bytes(*self).map_values(|c: u8| c as char));
                "100755"
            },
            Mode::ReadWrite => {
                proof {
                    reveal_strlit("100644");
                }
                assert("100644"@ =~= mode_bytes(*self).map_values(|c: u8| c as char));
                "100644"
            },
            Mode::Directory => {
                proof {
                    reveal_strlit("040000");
                }
                assert("040000"@ =~= mode_bytes(*self).map_values(|c: u8| c as char));
                "040000"
            },
        }
    }

    /// The mode string as ASCII bytes.
    pub fn as_bytes(&self) -> (r: &'static [u8])
        ensures
            r@ == mode_bytes(*self),
    {
        let r: &'static [u8] = match self {
            Mode::ReadWriteExecute => &[49u8, 48, 48, 55, 53, 53],
            Mode::ReadWrite => &[49u8, 48, 48, 54, 52, 52],
            Mode::Directory => &[48u8, 52, 48, 48, 48, 48],
        };
        assert(r@ =~= mode_bytes(*self));
        r
    }

    /// The mode of a regular file with Unix permission bits `permissions`:
    /// executable when any execute bit is set.
    pub fn for_file(permissions: u32) -> (r: Mode)
        ensures
            r == (if permissions & 0o111u32 != 0 {
                Mode::ReadWriteExecute
            } else {
                Mode::ReadWrite
            }),
    {
        if permissions & 0o111u32 != 0 {
            Mode::ReadWriteExecute
        } else {
            Mode::ReadWrite
        }
    }

    fn rank(&self) -> (r: u8)
        ensures
            r as int == mode_rank(*self),
    {
        match self {
            Mode::ReadWriteExecute => 0,
            Mode::ReadWrite => 1,
            Mode::Directory => 2,
        }
    }
}

/// What an entry holds: its name, the id it refers to, and its mode.
pub struct EntryView {
    pub name: Seq<u8>,
    pub oid: Seq<u8>,
    pub mode: Mode,
}

/// One row of a tree: a path component, the id of the child, and its mode.
#[derive(Debug)]
pub struct Entry {
    path: Vec<u8>,
    oid: ObjectID,
    mode: Mode,
}

impl View for Entry {
    type V = EntryView;

    closed spec fn view(&self) -> EntryView {
        EntryView { name: self.path@, oid: self.oid@, mode: self.mode }
    }
}

/// The views of a sequence of entries.
pub open spec fn entry_views(s: Seq<Entry>) -> Seq<EntryView> {
    s.map_values(|e: Entry| e@)
}

/// The order of entries: by raw name bytes, then by id bytes, then by mode.
pub open spec fn entry_lt(a: EntryView, b: EntryView) -> bool {
    ||| bytes_lt(a.name, b.name)
    ||| (a.name == b.name && bytes_lt(a.oid, b.oid))
    ||| (a.name == b.name && a.oid == b.oid && mode_rank(a.mode) < mode_rank(b.mode))
}

/// `a` does not come after `b`.
pub open spec fn entry_le(a: EntryView, b: EntryView) -> bool {
    !entry_lt(b, a)
}

/// Entries in the order of `entry_le`.
pub open spec fn entries_sorted(s: Seq<EntryView>) -> bool {
    sorted_by(s, |a: EntryView, b: EntryView| entry_le(a, b))
}

/// No entry comes before itself.
pub proof fn lemma_entry_lt_irreflexive(a: EntryView)
    ensures
        !entry_lt(a, a),
{
    lemma_bytes_lt_irreflexive(a.name);
    lemma_bytes_lt_irreflexive(a.oid);
}

/// Of two entries, at most one comes before the other.
pub proof fn lemma_entry_lt_asymmetric(a: EntryView, b: EntryView)
    ensures
        entry_lt(a, b) ==> !entry_lt(b, a),
{
    lemma_bytes_lt_asymmetric(a.name, b.name);
    lemma_bytes_lt_asymmetric(a.oid, b.oid);
    lemma_bytes_lt_irreflexive(a.name);
    lemma_bytes_lt_irreflexive(a.oid);
}

/// Of two different entries, one comes before the other.
pub proof fn lemma_entry_lt_total(a: EntryView, b: EntryView)
    ensures
        a == b || entry_lt(a, b) || entry_lt(b, a),
{
    lemma_bytes_lt_total(a.name, b.name);
    lemma_bytes_lt_total(a.oid, b.oid);
}

/// The order of entries is transitive.
pub proof fn lemma_entry_lt_transitive(a: EntryView, b: EntryView, c: EntryView)
    requires
        entry_lt(a, b),
        entry_lt(b, c),
    ensures
        entry_lt(a, c),
{
    if bytes_lt(a.name, b.name) && bytes_lt(b.name, c.name) {
        lemma_bytes_lt_transitive(a.name, b.name, c.name);
    }
    if a.name == b.name && b.name == c.name && bytes_lt(a.oid, b.oid) && bytes_lt(b.oid, c.oid) {
        lemma_bytes_lt_transitive(a.oid, b.oid, c.oid);
    }
}

/// `entry_le` is a total order.
pub proof fn lemma_entry_le_total_ordering()
    ensures
        total_ordering(|a: EntryView, b: EntryView| entry_le(a, b)),
{
    let le = |a: EntryView, b: EntryView| entry_le(a, b);
    assert forall|x: EntryView| #[trigger] le(x, x) by {
        lemma_entry_lt_irreflexive(x);
    }
    assert forall|x: EntryView, y: EntryView| #[trigger] le(x, y) && #[trigger] le(y, x) implies x
        == y by {
        lemma_entry_lt_total(x, y);
    }
    assert forall|x: EntryView, y: EntryView, z: EntryView|
        #[trigger] le(x, y) && #[trigger] le(y, z) implies le(x, z) by {
        lemma_entry_lt_total(x, y);
        lemma_entry_lt_total(y, z);
        if entry_lt(z, x) {
            if x == y {
            } else if y == z {
            } else {
                lemma_entry_lt_transitive(z, x, y);
            }
        }
    }
    assert forall|x: EntryView, y: EntryView| #[trigger] le(x, y) || #[trigger] le(y, x) by {
        lemma_entry_lt_asymmetric(x, y);
    }
}

impl Entry {
    /// An entry named `path`, referring to `oid`, with mode `mode`.
    pub fn new(path: Vec<u8>, oid: ObjectID, mode: Mode) -> (r: Entry)
        ensures
            r@ == (EntryView { name: path@, oid: oid@, mode }),
    {
        Entry { path, oid, mode }
    }

    /// The name of the entry.
    pub fn path(&self) -> (r: &[u8])
        ensures
            r@ == self@.name,
    {
        self.path.as_slice()
    }

    /// The name of the entry, as raw bytes.
    pub fn path_bytes(&self) -> (r: &[u8])
        ensures
            r@ == self@.name,
    {
        self.path.as_slice()
    }

    /// The id the entry refers to.
    pub fn oid(&self) -> (r: &ObjectID)
        ensures
            r@ == self@.oid,
    {
        &self.oid
    }

    /// The mode of the entry.
    pub fn mode(&self) -> (r: &Mode)
        ensures
            *r == self@.mode,
    {
        &self.mode
    }

    /// Whether `self` comes strictly before `other`.
    pub fn less_than(&self, other: &Entry) -> (r: bool)
        ensures
            r == entry_lt(self@, other@),
    {
        if bytes_less(self.path.as_slice(), other.path.as_slice()) {
            return true;
        }
        if !bytes_equal(self.path.as_slice(), other.path.as_slice()) {
            return false;
        }
        if bytes_less(self.oid.as_bytes(), other.oid.as_bytes()) {
            return true;
        }
        if !bytes_equal(self.oid.as_bytes(), other.oid.as_bytes()) {
            return false;
        }
        self.mode.rank() < other.mode.rank()
    }
}

} // verus!
