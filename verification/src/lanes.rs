//! Where each forward link of a skip list must point, given only the
//! heights of the nodes in key order.
//!
//! Positions run over the nodes in ascending key order; position `-1`
//! stands for the sentinel head, which is as tall as any node. A node of
//! height `h` takes part in the lanes `0 .. h`.

use vstd::prelude::*;

verus! {

/// The first position after `p` whose node takes part in lane `l`,
/// or `hs.len()` when there is none.
pub open spec fn next_at(hs: Seq<nat>, p: int, l: int) -> int
    decreases hs.len() - p,
{
    if p + 1 >= hs.len() {
        hs.len() as int
    } else if hs[p + 1] > l {
        p + 1
    } else {
        next_at(hs, p + 1, l)
    }
}

/// `q` is the position that lane `l` reaches from `p`.
pub open spec fn is_next_at(hs: Seq<nat>, p: int, l: int, q: int) -> bool {
    &&& p < q <= hs.len()
    &&& q < hs.len() ==> hs[q] > l
    &&& forall|k: int| p < k < q ==> hs[k] <= l
}

/// `next_at` is the position that lane `l` reaches from `p`, and no other
/// position is.
pub proof fn lemma_next_at(hs: Seq<nat>, p: int, l: int)
    requires
        -1 <= p < hs.len(),
    ensures
        is_next_at(hs, p, l, next_at(hs, p, l)),
        forall|q: int| is_next_at(hs, p, l, q) ==> q == next_at(hs, p, l),
    decreases hs.len() - p,
{
    if p + 1 < hs.len() && hs[p + 1] <= l {
        lemma_next_at(hs, p + 1, l);
        let n = next_at(hs, p + 1, l);
        assert forall|k: int| p < k < n implies hs[k] <= l by {
            if k > p + 1 {
                assert(p + 1 < k < n);
            }
        }
    }
    let n = next_at(hs, p, l);
    assert forall|q: int| is_next_at(hs, p, l, q) implies q == n by {
        if q < n {
            assert(hs[q] <= l);
        } else if n < q {
            assert(hs[n] <= l);
        }
    }
}

/// Characterises `next_at` by the defining property.
pub proof fn lemma_next_at_is(hs: Seq<nat>, p: int, l: int, q: int)
    requires
        -1 <= p < hs.len(),
        is_next_at(hs, p, l, q),
    ensures
        next_at(hs, p, l) == q,
{
    lemma_next_at(hs, p, l);
}

/// Inserting a node of height `h` at position `q` moves every lane link
/// over it, and lane `l` links at `p` onto it exactly when `q` lies in the
/// stretch that `p` spans in that lane and the new node is tall enough.
pub proof fn lemma_next_at_insert(hs: Seq<nat>, q: int, h: nat, p: int, l: int)
    requires
        0 <= q <= hs.len(),
        -1 <= p < hs.len(),
    ensures
        ({
            let t = next_at(hs, p, l);
            let p2 = if p < q { p } else { p + 1 };
            next_at(hs.insert(q, h), p2, l) == if p < q && q <= t && h > l {
                q
            } else if t < q {
                t
            } else {
                t + 1
            }
        }),
{
    lemma_next_at(hs, p, l);
    let t = next_at(hs, p, l);
    let hs2 = hs.insert(q, h);
    let p2 = if p < q { p } else { p + 1 };
    let want = if p < q && q <= t && h > l {
        q
    } else if t < q {
        t
    } else {
        t + 1
    };
    assert forall|k: int| p2 < k < want implies hs2[k] <= l by {
        if k < q {
            assert(hs2[k] == hs[k]);
        } else if k == q {
        } else {
            assert(hs2[k] == hs[k - 1]);
        }
    }
    lemma_next_at_is(hs2, p2, l, want);
}

/// The lane successor of a node just inserted at `q`.
pub proof fn lemma_next_at_inserted(hs: Seq<nat>, q: int, h: nat, l: int)
    requires
        0 <= q <= hs.len(),
    ensures
        next_at(hs.insert(q, h), q, l) == next_at(hs, q - 1, l) + 1,
{
    lemma_next_at(hs, q - 1, l);
    let t = next_at(hs, q - 1, l);
    let hs2 = hs.insert(q, h);
    assert forall|k: int| q < k < t + 1 implies hs2[k] <= l by {
        assert(hs2[k] == hs[k - 1]);
    }
    lemma_next_at_is(hs2, q, l, t + 1);
}

/// Removing the node at position `q` from the lanes.
pub proof fn lemma_next_at_remove(hs: Seq<nat>, q: int, p: int, l: int)
    requires
        0 <= q < hs.len(),
        -1 <= p < hs.len(),
        p != q,
    ensures
        ({
            let t = next_at(hs, p, l);
            let p2 = if p < q { p } else { p - 1 };
            next_at(hs.remove(q), p2, l) == if t < q {
                t
            } else if t == q {
                next_at(hs, q, l) - 1
            } else {
                t - 1
            }
        }),
{
    lemma_next_at(hs, p, l);
    lemma_next_at(hs, q, l);
    let t = next_at(hs, p, l);
    let hs2 = hs.remove(q);
    let p2 = if p < q { p } else { p - 1 };
    let want = if t < q {
        t
    } else if t == q {
        next_at(hs, q, l) - 1
    } else {
        t - 1
    };
    assert forall|k: int| p2 < k < want implies hs2[k] <= l by {
        if k < q {
            assert(hs2[k] == hs[k]);
        } else {
            assert(hs2[k] == hs[k + 1]);
        }
    }
    lemma_next_at_is(hs2, p2, l, want);
}

} // verus!
