//! First-occurrence lookup by id over model sequences.
//!
//! One aggregation pass, and the store model, both key their nodes by an
//! integer id and always address the first node carrying a given id. The
//! spec function [`id_index`] is that lookup; the lemmas characterize it so
//! that executable linear scans, and proofs about pushes and updates, can be
//! tied to it.

use vstd::prelude::*;

verus! {

/// A model element that carries a numeric identity.
pub trait HasId {
    /// The identity by which a node is looked up.
    spec fn sid(&self) -> i64;
}

/// Index of the first element of `s` whose id is `id`, or -1 when none is.
pub open spec fn id_index<T: HasId>(s: Seq<T>, id: i64) -> int
    decreases s.len(),
{
    if s.len() == 0 {
        -1
    } else if s[0].sid() == id {
        0
    } else {
        let r = id_index(s.drop_first(), id);
        if r == -1 {
            -1
        } else {
            r + 1
        }
    }
}

/// Whether some element of `s` has id `id`.
pub open spec fn has_id<T: HasId>(s: Seq<T>, id: i64) -> bool {
    id_index(s, id) != -1
}

/// `id_index` finds the first occurrence: the result is either -1 and no
/// element matches, or it is the position of a match that nothing precedes.
pub proof fn lemma_id_index<T: HasId>(s: Seq<T>, id: i64)
    ensures
        id_index(s, id) == -1 ==> forall|i: int| 0 <= i < s.len() ==> (#[trigger] s[i]).sid() != id,
        id_index(s, id) != -1 ==> {
            let k = id_index(s, id);
            &&& 0 <= k < s.len()
            &&& s[k].sid() == id
            &&& forall|i: int| 0 <= i < k ==> (#[trigger] s[i]).sid() != id
        },
    decreases s.len(),
{
    if s.len() == 0 {
    } else if s[0].sid() == id {
    } else {
        lemma_id_index(s.drop_first(), id);
        assert forall|i: int| 1 <= i < s.len() implies #[trigger] s[i] == s.drop_first()[i - 1] by {}
    }
}

/// A match at `k` with no earlier match pins `id_index` down to `k`.
pub proof fn lemma_id_index_at<T: HasId>(s: Seq<T>, id: i64, k: int)
    requires
        0 <= k < s.len(),
        s[k].sid() == id,
        forall|i: int| 0 <= i < k ==> (#[trigger] s[i]).sid() != id,
    ensures
        id_index(s, id) == k,
    decreases s.len(),
{
    if k == 0 {
    } else {
        assert(s.drop_first()[k - 1] == s[k]);
        assert forall|i: int| 0 <= i < k - 1 implies (#[trigger] s.drop_first()[i]).sid() != id by {
            assert(s.drop_first()[i] == s[i + 1]);
        }
        lemma_id_index_at(s.drop_first(), id, k - 1);
    }
}

/// When no element matches, `id_index` is -1.
pub proof fn lemma_id_index_none<T: HasId>(s: Seq<T>, id: i64)
    requires
        forall|i: int| 0 <= i < s.len() ==> (#[trigger] s[i]).sid() != id,
    ensures
        id_index(s, id) == -1,
    decreases s.len(),
{
    if s.len() > 0 {
        assert forall|i: int| 0 <= i < s.len() - 1 implies (#[trigger] s.drop_first()[i]).sid()
            != id by {
            assert(s.drop_first()[i] == s[i + 1]);
        }
        lemma_id_index_none(s.drop_first(), id);
    }
}

/// How a push at the back moves `id_index`: an existing first occurrence
/// stays where it was; otherwise the new element decides.
pub proof fn lemma_id_index_push<T: HasId>(s: Seq<T>, x: T, id: i64)
    ensures
        id_index(s, id) != -1 ==> id_index(s.push(x), id) == id_index(s, id),
        id_index(s, id) == -1 && x.sid() == id ==> id_index(s.push(x), id) == s.len(),
        id_index(s, id) == -1 && x.sid() != id ==> id_index(s.push(x), id) == -1,
{
    lemma_id_index(s, id);
    let t = s.push(x);
    if id_index(s, id) != -1 {
        let k = id_index(s, id);
        assert forall|i: int| 0 <= i < k implies (#[trigger] t[i]).sid() != id by {
            assert(t[i] == s[i]);
        }
        lemma_id_index_at(t, id, k);
    } else if x.sid() == id {
        assert forall|i: int| 0 <= i < s.len() implies (#[trigger] t[i]).sid() != id by {
            assert(t[i] == s[i]);
        }
        lemma_id_index_at(t, id, s.len() as int);
    } else {
        assert forall|i: int| 0 <= i < t.len() implies (#[trigger] t[i]).sid() != id by {
            if i < s.len() {
                assert(t[i] == s[i]);
            }
        }
        lemma_id_index_none(t, id);
    }
}

/// An update that keeps the element's id in place keeps every lookup result.
pub proof fn lemma_id_index_update<T: HasId>(s: Seq<T>, k: int, y: T, id: i64)
    requires
        0 <= k < s.len(),
        y.sid() == s[k].sid(),
    ensures
        id_index(s.update(k, y), id) == id_index(s, id),
{
    lemma_id_index(s, id);
    let t = s.update(k, y);
    if id_index(s, id) != -1 {
        let k0 = id_index(s, id);
        assert(t[k0].sid() == id);
        assert forall|i: int| 0 <= i < k0 implies (#[trigger] t[i]).sid() != id by {
            assert(t[i].sid() == s[i].sid());
        }
        lemma_id_index_at(t, id, k0);
    } else {
        assert forall|i: int| 0 <= i < t.len() implies (#[trigger] t[i]).sid() != id by {
            assert(t[i].sid() == s[i].sid());
        }
        lemma_id_index_none(t, id);
    }
}

} // verus!
