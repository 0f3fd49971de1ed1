use vstd::prelude::*;
use crate::bytes::push_all;

verus! {

/// The separator of path components.
pub const SEPARATOR: u8 = 47;

/// `base` with the relative path `rel` appended as one more level: a
/// separator stands between them unless `base` is empty or already ends
/// in one, and an empty `rel` leaves `base` as it is.
pub open spec fn join(base: Seq<u8>, rel: Seq<u8>) -> Seq<u8> {
    if rel.len() == 0 {
        base
    } else if base.len() == 0 || base.last() == SEPARATOR {
        base + rel
    } else {
        base + seq![SEPARATOR] + rel
    }
}

/// Joins the relative path `rel` onto `base`.
pub fn join_path(base: &[u8], rel: &[u8]) -> (r: Vec<u8>)
    ensures
        r@ == join(base@, rel@),
{
    let mut out: Vec<u8> = Vec::new();
    push_all(&mut out, base);
    if rel.len() == 0 {
        assert(out@ =~= base@);
        return out;
    }
    if base.len() > 0 && base[base.len() - 1] != SEPARATOR {
        out.push(SEPARATOR);
    }
    push_all(&mut out, rel);
    assert(out@ =~= join(base@, rel@));
    out
}

} // verus!
