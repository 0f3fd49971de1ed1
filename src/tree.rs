use vstd::prelude::*;
use vstd::multiset::Multiset;
use vstd::seq_lib::lemma_sorted_unique;
use crate::bytes::push_all;
use crate::database::{ObjectKind, Storable};
use crate::entry::{
    entries_sorted, entry_le, entry_lt, entry_views, lemma_entry_le_total_ordering,
    lemma_entry_lt_asymmetric, lemma_entry_lt_irreflexive, lemma_entry_lt_total,
    lemma_entry_lt_transitive, mode_bytes, Entry, EntryView,
};

verus! {

broadcast use vstd::seq_lib::group_to_multiset_ensures;

/// One entry of a tree payload: `"<mode> <name>\0<raw id bytes>"`.
pub open spec fn entry_record(e: EntryView) -> Seq<u8> {
    mode_bytes(e.mode) + seq![32u8] + e.name + seq![0u8] + e.oid
}

/// The payload of a tree: the records of its entries, in their order.
pub open spec fn tree_payload(s: Seq<EntryView>) -> Seq<u8>
    decreases s.len(),
{
    if s.len() == 0 {
        Seq::empty()
    } else {
        tree_payload(s.drop_last()) + entry_record(s.last())
    }
}

/// No two entries have the same name.
pub open spec fn names_distinct(s: Seq<EntryView>) -> bool {
    forall|a: int, b: int| 0 <= a < s.len() && 0 <= b < s.len() && a != b ==> s[a].name != s[b].name
}

/// A sequence with the same multiset as one without duplicates has none,
/// and the same elements.
pub proof fn lemma_same_multiset(a: Seq<EntryView>, b: Seq<EntryView>)
    requires
        a.no_duplicates(),
        a.to_multiset() == b.to_multiset(),
    ensures
        b.no_duplicates(),
        b.to_set() == a.to_set(),
{
    a.lemma_multiset_has_no_duplicates();
    b.lemma_multiset_has_no_duplicates_conv();
    assert forall|x: EntryView| b.to_set().contains(x) <==> a.to_set().contains(x) by {
        assert(b.contains(x) <==> b.to_multiset().count(x) > 0);
        assert(a.contains(x) <==> a.to_multiset().count(x) > 0);
    }
    assert(b.to_set() =~= a.to_set());
}

/// A directory listing that can be stored: its entries sorted by raw name
/// bytes, and its payload computed from them.
pub struct Tree {
    entries: Vec<Entry>,
    data: Vec<u8>,
}

impl View for Tree {
    type V = Seq<EntryView>;

    closed spec fn view(&self) -> Seq<EntryView> {
        entry_views(self.entries@)
    }
}

/// The records of `entries`, in their order.
fn serialize_entries(entries: &Vec<Entry>) -> (r: Vec<u8>)
    ensures
        r@ == tree_payload(entry_views(entries@)),
{
    let mut out: Vec<u8> = Vec::new();
    let mut i: usize = 0;
    assert(entry_views(entries@).take(0) =~= Seq::<EntryView>::empty());
    while i < entries.len()
        invariant
            i <= entries.len(),
            out@ == tree_payload(entry_views(entries@).take(i as int)),
        decreases entries.len() - i,
    {
        let e = &entries[i];
        push_all(&mut out, e.mode().as_bytes());
        out.push(32u8);
        push_all(&mut out, e.path_bytes());
        out.push(0u8);
        push_all(&mut out, e.oid().as_bytes());
        proof {
            let v = entry_views(entries@);
            assert(v.take(i + 1).drop_last() =~= v.take(i as int));
            assert(v.take(i + 1).last() == v[i as int]);
            assert(out@ =~= tree_payload(v.take(i as int)) + entry_record(v[i as int]));
        }
        i = i + 1;
    }
    assert(entry_views(entries@).take(entries.len() as int) =~= entry_views(entries@));
    out
}

proof fn lemma_insert_keeps_sorted(s: Seq<EntryView>, j: int, x: EntryView)
    requires
        entries_sorted(s),
        0 <= j <= s.len(),
        forall|k: int| 0 <= k < j ==> !entry_lt(x, #[trigger] s[k]),
        j < s.len() ==> entry_lt(x, s[j]),
    ensures
        entries_sorted(s.insert(j, x)),
{
    let t = s.insert(j, x);
    let le = |a: EntryView, b: EntryView| entry_le(a, b);
    assert forall|a: int, b: int| 0 <= a < b < t.len() implies #[trigger] le(t[a], t[b]) by {
        if b < j {
            assert(le(s[a], s[b]));
        } else if b == j {
            assert(t[b] == x);
            assert(!entry_lt(x, s[a]));
        } else if a == j {
            assert(t[b] == s[b - 1]);
            lemma_entry_lt_asymmetric(x, s[j]);
            if b - 1 > j {
                assert(le(s[j], s[b - 1]));
                if entry_lt(s[b - 1], x) {
                    lemma_entry_lt_transitive(s[b - 1], x, s[j]);
                }
            }
        } else if a < j {
            assert(le(s[a], s[b - 1]));
        } else {
            assert(le(s[a - 1], s[b - 1]));
        }
    }
}

impl Tree {
    /// The entries are sorted, no two share a name, and the payload is
    /// theirs.
    #[verifier::type_invariant]
    spec fn inv(&self) -> bool {
        &&& entries_sorted(entry_views(self.entries@))
        &&& names_distinct(entry_views(self.entries@))
        &&& self.data@ == tree_payload(entry_views(self.entries@))
    }

    /// The entries of the tree are sorted, they are the entries of `e`
    /// (with as many copies of each), and the payload is theirs.
    pub open spec fn built_from(&self, e: Seq<EntryView>) -> bool {
        &&& entries_sorted(self@)
        &&& self@.to_multiset() == e.to_multiset()
        &&& self.payload() == tree_payload(self@)
    }

    /// A tree of `entries`, which it sorts; no two of them may have the
    /// same name.
    pub fn new(entries: Vec<Entry>) -> (r: Tree)
        requires
            names_distinct(entry_views(entries@)),
        ensures
            r.built_from(entry_views(entries@)),
            names_distinct(r@),
    {
        let ghost orig = entry_views(entries@);
        let mut input = entries;
        let mut sorted: Vec<Entry> = Vec::new();
        assert(entry_views(sorted@) =~= Seq::<EntryView>::empty());
        assert(entry_views(sorted@).to_multiset() =~= Multiset::<EntryView>::empty());
        while input.len() > 0
            invariant
                entries_sorted(entry_views(sorted@)),
                entry_views(sorted@).to_multiset().add(entry_views(input@).to_multiset()) == orig.to_multiset(),
            decreases input.len(),
        {
            let ghost before = input@;
            let x = input.pop().unwrap();
            proof {
                assert(before =~= input@.push(x));
                assert(entry_views(before) =~= entry_views(input@).push(x@));
            }
            let mut j: usize = 0;
            while j < sorted.len() && !x.less_than(&sorted[j])
                invariant
                    j <= sorted.len(),
                    forall|k: int| 0 <= k < j ==> !entry_lt(x@, #[trigger] entry_views(sorted@)[k]),
                decreases sorted.len() - j,
            {
                j = j + 1;
            }
            let ghost s = entry_views(sorted@);
            sorted.insert(j, x);
            proof {
                assert(entry_views(sorted@) =~= s.insert(j as int, x@));
                lemma_insert_keeps_sorted(s, j as int, x@);
            }
        }
        assert(entry_views(input@) =~= Seq::<EntryView>::empty());
        assert(entry_views(sorted@).to_multiset() =~= orig.to_multiset());
        proof {
            let ev = entry_views(entries@);
            let sv = entry_views(sorted@);
            assert forall|a: int, b: int| 0 <= a < ev.len() && 0 <= b < ev.len() && a != b implies ev[a]
                != ev[b] by {}
            lemma_same_multiset(orig, sv);
            assert forall|a: int, b: int| 0 <= a < sv.len() && 0 <= b < sv.len() && a != b implies sv[a].name
                != sv[b].name by {
                assert(sv.to_multiset().count(sv[a]) > 0);
                assert(sv.to_multiset().count(sv[b]) > 0);
                assert(orig.contains(sv[a]));
                assert(orig.contains(sv[b]));
                assert(sv[a] != sv[b]);
                let x = choose|x: int| 0 <= x < orig.len() && orig[x] == sv[a];
                let y = choose|y: int| 0 <= y < orig.len() && orig[y] == sv[b];
            }
        }
        let data = serialize_entries(&sorted);
        Tree { entries: sorted, data }
    }

    /// The payload: the records of the entries, in order.
    pub fn serialize(&self) -> (r: Vec<u8>)
        ensures
            r@ == tree_payload(self@),
    {
        serialize_entries(&self.entries)
    }

    /// The entries, sorted, no two with the same name.
    pub fn entries(&self) -> (r: &Vec<Entry>)
        ensures
            entry_views(r@) == self@,
            entries_sorted(self@),
            names_distinct(self@),
    {
        proof {
            use_type_invariant(self);
        }
        &self.entries
    }
}

impl Storable for Tree {
    open spec fn kind(&self) -> ObjectKind {
        ObjectKind::Tree
    }

    open spec fn payload(&self) -> Seq<u8> {
        tree_payload(self@)
    }

    fn object_kind(&self) -> (k: ObjectKind) {
        ObjectKind::Tree
    }

    fn data(&self) -> (r: &Vec<u8>) {
        proof {
            use_type_invariant(self);
        }
        &self.data
    }
}

/// Two sorted entry lists that hold the same entries are the same list.
pub proof fn lemma_sorted_entries_unique(a: Seq<EntryView>, b: Seq<EntryView>)
    requires
        entries_sorted(a),
        entries_sorted(b),
        a.to_multiset() == b.to_multiset(),
    ensures
        a == b,
{
    lemma_entry_le_total_ordering();
    lemma_sorted_unique(a, b, |x: EntryView, y: EntryView| entry_le(x, y));
}

/// Tree serialization does not depend on the order in which entries are
/// given: trees built from the same entries, in any two orders, have the
/// same entries in the same order and the same payload.
pub proof fn lemma_tree_ignores_input_order(
    t1: Tree,
    t2: Tree,
    e1: Seq<EntryView>,
    e2: Seq<EntryView>,
)
    requires
        t1.built_from(e1),
        t2.built_from(e2),
        e1.to_multiset() == e2.to_multiset(),
    ensures
        t1@ == t2@,
        t1.payload() == t2.payload(),
{
    lemma_sorted_entries_unique(t1@, t2@);
}

} // verus!
