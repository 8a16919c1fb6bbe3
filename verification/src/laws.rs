//! Laws that tie the operations of the skip list together.
//!
//! They are stated over the maps that the operations' contracts speak of:
//! a lookup of `q` finds the entry of the stored key that compares equal
//! to `q` (`stored_key`), an insert files its value under that key, and a
//! delete removes it.

use vstd::prelude::*;
use crate::order::{total_key_order, key_eq, lemma_key_order};
use crate::skiplist::{SkipList, is_level_of, has_equal_key, stored_key, one_key_per_class};

verus! {

/// The stored key that `q` is filed under compares equal to `q`, and is the
/// only such key.
pub proof fn law_stored_key<K: Ord, V>(m: Map<K, V>, q: K)
    requires
        total_key_order::<K>(),
        one_key_per_class(m),
    ensures
        key_eq(stored_key(m, q), q),
        has_equal_key(m, q) ==> m.contains_key(stored_key(m, q)),
        forall|k: K| m.contains_key(k) && key_eq(k, q) ==> k == stored_key(m, q),
        m.contains_key(q) ==> stored_key(m, q) == q,
{
    lemma_key_order::<K>();
    assert forall|k: K| m.contains_key(k) && key_eq(k, q) implies k == stored_key(m, q) by {
        let s = choose|s: K| #[trigger] m.contains_key(s) && key_eq(s, q);
        assert(key_eq(k, s));
    }
    if m.contains_key(q) {
        assert(key_eq(q, q));
    }
}

/// An insert keeps one key per class; the key it files under is the
/// stored key when `key` has one, so that stored key stays and `key` is not
/// added beside it.
pub proof fn law_insert_keeps_stored_key<K: Ord, V>(m: Map<K, V>, key: K, value: V)
    requires
        total_key_order::<K>(),
        one_key_per_class(m),
    ensures
        one_key_per_class(m.insert(stored_key(m, key), value)),
        has_equal_key(m, key) ==> m.insert(stored_key(m, key), value).dom() == m.dom(),
        !has_equal_key(m, key) ==> m.insert(stored_key(m, key), value).dom() == m.dom().insert(key),
{
    lemma_key_order::<K>();
    law_stored_key(m, key);
    let a = m.insert(stored_key(m, key), value);
    assert forall|x: K, y: K|
        #[trigger] a.contains_key(x) && #[trigger] a.contains_key(y) && key_eq(x, y) implies x == y by {
        if x != y {
            if x == stored_key(m, key) && !m.contains_key(x) {
                assert(key_eq(y, key));
            } else if y == stored_key(m, key) && !m.contains_key(y) {
                assert(key_eq(x, key));
            }
        }
    }
    if has_equal_key(m, key) {
        assert(a.dom() =~= m.dom());
    } else {
        assert(a.dom() =~= m.dom().insert(key));
    }
}

/// A lookup of any key that compares equal to `key`, after inserting `key`
/// with `value`, finds `value`.
pub proof fn law_get_after_insert<K: Ord, V>(m: Map<K, V>, key: K, value: V, query: K)
    requires
        total_key_order::<K>(),
        one_key_per_class(m),
        key_eq(query, key),
    ensures
        ({
            let after = m.insert(stored_key(m, key), value);
            &&& has_equal_key(after, query)
            &&& after[stored_key(after, query)] == value
        }),
{
    lemma_key_order::<K>();
    law_stored_key(m, key);
    law_insert_keeps_stored_key(m, key, value);
    let after = m.insert(stored_key(m, key), value);
    let s = stored_key(m, key);
    assert(after.contains_key(s) && key_eq(s, query));
    law_stored_key(after, query);
}

/// An insert leaves the lookup of every key outside its class as it was.
pub proof fn law_insert_leaves_others<K: Ord, V>(m: Map<K, V>, key: K, value: V, query: K)
    requires
        total_key_order::<K>(),
        one_key_per_class(m),
        !key_eq(query, key),
    ensures
        ({
            let after = m.insert(stored_key(m, key), value);
            &&& has_equal_key(after, query) == has_equal_key(m, query)
            &&& has_equal_key(m, query) ==> stored_key(after, query) == stored_key(m, query)
                && after[stored_key(after, query)] == m[stored_key(m, query)]
        }),
{
    lemma_key_order::<K>();
    law_stored_key(m, key);
    law_stored_key(m, query);
    law_insert_keeps_stored_key(m, key, value);
    let after = m.insert(stored_key(m, key), value);
    let s = stored_key(m, key);
    assert(!key_eq(s, query));
    if has_equal_key(after, query) {
        let k = choose|k: K| #[trigger] after.contains_key(k) && key_eq(k, query);
        assert(k != s);
        assert(m.contains_key(k));
    }
    if has_equal_key(m, query) {
        let t = stored_key(m, query);
        assert(after.contains_key(t));
        law_stored_key(after, query);
    }
}

/// Deleting the key that was just inserted, when nothing equal to it was
/// stored before, gives back the map as it was.
pub proof fn law_delete_undoes_insert<K: Ord, V>(m: Map<K, V>, key: K, value: V)
    requires
        total_key_order::<K>(),
        one_key_per_class(m),
        !has_equal_key(m, key),
    ensures
        ({
            let after = m.insert(stored_key(m, key), value);
            after.remove(stored_key(after, key)) == m
        }),
{
    lemma_key_order::<K>();
    law_insert_keeps_stored_key(m, key, value);
    let after = m.insert(key, value);
    assert(key_eq(key, key));
    law_stored_key(after, key);
    assert(!m.contains_key(key));
    assert(after.remove(key) =~= m);
}

/// After a delete, nothing equal to the deleted key is left, and a second
/// delete changes nothing.
pub proof fn law_delete_then_get<K: Ord, V>(m: Map<K, V>, key: K)
    requires
        total_key_order::<K>(),
        one_key_per_class(m),
    ensures
        ({
            let after = m.remove(stored_key(m, key));
            &&& !has_equal_key(after, key)
            &&& after.remove(stored_key(after, key)) == after
        }),
{
    lemma_key_order::<K>();
    law_stored_key(m, key);
    let after = m.remove(stored_key(m, key));
    if has_equal_key(after, key) {
        let k = choose|k: K| #[trigger] after.contains_key(k) && key_eq(k, key);
        assert(m.contains_key(k));
    }
    assert(after.remove(stored_key(after, key)) =~= after);
}

/// An insert adds one entry exactly when nothing equal to the key was
/// stored.
pub proof fn law_len_after_insert<K: Ord, V>(list: &SkipList<K, V>, key: K, value: V)
    requires
        list.wf(),
        list.sorted(),
        total_key_order::<K>(),
    ensures
        list@.insert(stored_key(list@, key), value).len() == list@.len() + if has_equal_key(
            list@,
            key,
        ) {
            0int
        } else {
            1int
        },
{
    list.lemma_wf();
    list.lemma_key_classes();
    law_insert_keeps_stored_key(list@, key, value);
    if !has_equal_key(list@, key) {
        lemma_key_order::<K>();
        assert(key_eq(key, key));
        assert(!list@.dom().contains(key));
    }
}

/// A delete removes one entry exactly when something equal to the key was
/// stored.
pub proof fn law_len_after_delete<K: Ord, V>(list: &SkipList<K, V>, key: K)
    requires
        list.wf(),
        list.sorted(),
        total_key_order::<K>(),
    ensures
        list@.remove(stored_key(list@, key)).len() == list@.len() - if has_equal_key(list@, key) {
            1int
        } else {
            0int
        },
{
    list.lemma_wf();
    list.lemma_key_classes();
    law_stored_key(list@, key);
    if !has_equal_key(list@, key) {
        lemma_key_order::<K>();
        assert(key_eq(key, key));
        assert(list@.remove(key).dom() =~= list@.dom());
    }
}

/// The level is fixed by the levels of the nodes: two candidates agree.
pub proof fn law_level_is_determined<K>(heights: Map<K, nat>, a: nat, b: nat)
    requires
        is_level_of(heights, a),
        is_level_of(heights, b),
    ensures
        a == b,
{
    if a < b {
        let k = choose|k: K| #[trigger] heights.contains_key(k) && heights[k] == b;
        assert(heights[k] <= a);
    } else if b < a {
        let k = choose|k: K| #[trigger] heights.contains_key(k) && heights[k] == a;
        assert(heights[k] <= b);
    }
}

/// A list without entries has exactly one level.
pub proof fn law_empty_level<K, V>(list: &SkipList<K, V>)
    requires
        list.wf(),
        list@.len() == 0,
    ensures
        list.spec_level() == 1,
{
    list.lemma_wf();
    if list.spec_level() > 1 {
        let k = choose|k: K| #[trigger] list.heights().contains_key(k) && list.heights()[k]
            == list.spec_level();
        assert(list@.dom().contains(k));
        vstd::set_lib::lemma_set_empty_equivalency_len(list@.dom());
    }
}

} // verus!
