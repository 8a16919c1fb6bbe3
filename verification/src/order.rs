//! The key order that the skip list relies on.
//!
//! Two keys may compare equal without being identical; the skip list keeps
//! one stored key per class of equal keys.

use vstd::prelude::*;
use vstd::laws_cmp::*;
use vstd::laws_eq::*;
use vstd::std_specs::cmp::{PartialEqSpec, PartialOrdSpec, OrdSpec};
use core::cmp::Ordering;

verus! {

/// The key type's `Ord` is a lawful total order, consistent with its `==`.
pub open spec fn total_key_order<K: Ord>() -> bool {
    obeys_cmp::<K>()
}

/// `a` sorts strictly before `b`.
pub open spec fn key_lt<K: Ord>(a: K, b: K) -> bool {
    a.partial_cmp_spec(&b) == Some(Ordering::Less)
}

/// `a` and `b` compare equal (they need not be identical).
pub open spec fn key_eq<K: Ord>(a: K, b: K) -> bool {
    a.partial_cmp_spec(&b) == Some(Ordering::Equal)
}

/// The facts about a lawful key order that the skip list's proofs use.
pub proof fn lemma_key_order<K: Ord>()
    requires
        total_key_order::<K>(),
    ensures
        K::obeys_partial_cmp_spec(),
        K::obeys_eq_spec(),
        forall|a: K, b: K| #[trigger] a.eq_spec(&b) <==> key_eq(a, b),
        forall|a: K| #[trigger] key_eq(a, a),
        forall|a: K| !key_lt(a, a),
        forall|a: K, b: K| key_lt(a, b) || key_eq(a, b) || key_lt(b, a),
        forall|a: K, b: K| key_lt(a, b) ==> !key_lt(b, a) && !key_eq(a, b) && !key_eq(b, a),
        forall|a: K, b: K| key_eq(a, b) ==> key_eq(b, a),
        forall|a: K, b: K, c: K| key_eq(a, b) && key_eq(b, c) ==> key_eq(a, c),
        forall|a: K, b: K, c: K| key_lt(a, b) && key_lt(b, c) ==> key_lt(a, c),
        forall|a: K, b: K, c: K| key_lt(a, b) && key_eq(b, c) ==> key_lt(a, c),
        forall|a: K, b: K, c: K| key_eq(a, b) && key_lt(b, c) ==> key_lt(a, c),
{
    reveal(obeys_eq_spec_properties);
    reveal(obeys_partial_cmp_spec_properties);
    reveal(obeys_cmp_partial_ord);
    reveal(obeys_cmp_ord);
    assert forall|a: K, b: K| key_lt(a, b) || key_eq(a, b) || key_lt(b, a) by {
        assert(a.partial_cmp_spec(&b) == Some(a.cmp_spec(&b)));
        assert(b.partial_cmp_spec(&a) == Some(b.cmp_spec(&a)));
    }
    assert forall|a: K| #[trigger] key_eq(a, a) by {
        assert(a.partial_cmp_spec(&a) == Some(a.cmp_spec(&a)));
    }
    assert forall|a: K| !key_lt(a, a) by {
        assert(a.partial_cmp_spec(&a) == Some(a.cmp_spec(&a)));
    }
    assert forall|a: K, b: K| key_eq(a, b) implies key_eq(b, a) by {
        assert(a.eq_spec(&b));
        assert(b.eq_spec(&a));
    }
    assert forall|a: K, b: K, c: K| key_eq(a, b) && key_eq(b, c) implies key_eq(a, c) by {
        assert(a.eq_spec(&b));
        assert(b.eq_spec(&c));
    }
    assert forall|a: K, b: K| key_lt(a, b) implies !key_lt(b, a) && !key_eq(a, b) && !key_eq(b, a) by {
        assert(b.partial_cmp_spec(&a) == Some(Ordering::Greater));
        if key_eq(b, a) {
            assert(b.eq_spec(&a));
            assert(a.eq_spec(&b));
        }
    }
    assert forall|a: K, b: K, c: K| key_lt(a, b) && key_lt(b, c) implies key_lt(a, c) by {
        assert(b.partial_cmp_spec(&c) == Some(Ordering::Less));
    }
    assert forall|a: K, b: K, c: K| key_lt(a, b) && key_eq(b, c) implies key_lt(a, c) by {
        assert(a.partial_cmp_spec(&c) == Some(a.cmp_spec(&c)));
        if key_eq(a, c) {
            assert(a.eq_spec(&c));
            assert(c.eq_spec(&b));
            assert(a.eq_spec(&b));
        } else if key_lt(c, a) {
            assert(c.partial_cmp_spec(&b) == Some(Ordering::Less));
        }
    }
    assert forall|a: K, b: K, c: K| key_eq(a, b) && key_lt(b, c) implies key_lt(a, c) by {
        assert(a.partial_cmp_spec(&c) == Some(a.cmp_spec(&c)));
        if key_eq(a, c) {
            assert(a.eq_spec(&c));
            assert(b.eq_spec(&a));
            assert(b.eq_spec(&c));
        } else if key_lt(c, a) {
            assert(c.partial_cmp_spec(&a) == Some(Ordering::Less));
            assert(b.partial_cmp_spec(&a) == Some(Ordering::Equal));
        }
    }
}

} // verus!
