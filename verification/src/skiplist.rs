//! The skip list: an ordered map from keys to values.
//!
//! Nodes live in slots of an arena and name each other by slot. Lane 0
//! links every node in ascending key order; lane `l` links, in the same
//! order, the nodes whose level exceeds `l`. A search runs along the
//! highest lane in use and drops one lane each time the next node's key
//! would overshoot.

use vstd::prelude::*;
use crate::order::{total_key_order, key_lt, key_eq, lemma_key_order};
use crate::lanes::{
    next_at, lemma_next_at, lemma_next_at_is, lemma_next_at_insert, lemma_next_at_inserted,
    lemma_next_at_remove,
};
use crate::node::{Node, NodeHead, unlinked};
use crate::height::{MAX_LEVEL, random_level};

verus! {

// The model.

/// An ordered map from `K` to `V` kept as a skip list.
pub struct SkipList<K, V> {
    len: usize,
    level: usize,
    head: NodeHead,
    nodes: Vec<Option<Box<Node<K, V>>>>,
    free: Vec<usize>,
    order: Ghost<Seq<usize>>,
}

impl<K, V> View for SkipList<K, V> {
    type V = Map<K, V>;

    closed spec fn view(&self) -> Map<K, V> {
        self.entries()
    }
}

/// `level` is the level of a list whose nodes have the levels in
/// `heights`: the largest of them, or 1 when there is none.
pub open spec fn is_level_of<K>(heights: Map<K, nat>, level: nat) -> bool {
    &&& 1 <= level
    &&& forall|k: K| #[trigger] heights.contains_key(k) ==> 1 <= heights[k] <= level
    &&& level > 1 ==> exists|k: K| #[trigger] heights.contains_key(k) && heights[k] == level
}

/// Some key of `m` compares equal to `q`.
pub open spec fn has_equal_key<K: Ord, V>(m: Map<K, V>, q: K) -> bool {
    exists|k: K| #[trigger] m.contains_key(k) && key_eq(k, q)
}

/// The key under which `m` files `q`: the key of `m` that compares equal
/// to `q` if there is one, else `q` itself.
pub open spec fn stored_key<K: Ord, V>(m: Map<K, V>, q: K) -> K {
    if has_equal_key(m, q) {
        choose|k: K| #[trigger] m.contains_key(k) && key_eq(k, q)
    } else {
        q
    }
}

/// No two keys of `m` compare equal.
pub open spec fn one_key_per_class<K: Ord, V>(m: Map<K, V>) -> bool {
    forall|a: K, b: K|
        #[trigger] m.contains_key(a) && #[trigger] m.contains_key(b) && key_eq(a, b) ==> a == b
}

/// `keys` is lane `l` of a list whose nodes have the levels in `heights`:
/// the keys of the nodes whose level exceeds `l`, in ascending order.
pub open spec fn is_lane<K: Ord>(heights: Map<K, nat>, l: int, keys: Seq<&K>) -> bool {
    &&& forall|i: int, j: int| 0 <= i < j < keys.len() ==> key_lt(*keys[i], *keys[j])
    &&& forall|k: K|
        (exists|i: int| 0 <= i < keys.len() && *keys[i] == k) <==> (
        #[trigger] heights.contains_key(k) && heights[k] > l)
}

impl<K, V> SkipList<K, V> {
    /// The number of nodes.
    spec fn n(&self) -> int {
        self.order@.len() as int
    }

    /// The node in slot `id`.
    spec fn node(&self, id: int) -> Node<K, V> {
        *self.nodes@[id].unwrap()
    }

    /// The key of the node at position `p` in key order.
    spec fn key_at(&self, p: int) -> K {
        self.node(self.order@[p] as int).key
    }

    /// The value of the node at position `p` in key order.
    spec fn value_at(&self, p: int) -> V {
        self.node(self.order@[p] as int).value
    }

    /// The level of the node at position `p`; the head at position `-1` is
    /// as tall as the list allows.
    spec fn height_at(&self, p: int) -> nat {
        if p < 0 {
            MAX_LEVEL as nat
        } else {
            self.node(self.order@[p] as int).head.forward@.len()
        }
    }

    /// The levels of the nodes in key order.
    spec fn hs(&self) -> Seq<nat> {
        Seq::new(self.order@.len(), |p: int| self.height_at(p))
    }

    /// The lane-`l` link of the node at position `p` (the head at `-1`).
    spec fn link(&self, p: int, l: int) -> Option<usize> {
        if p < 0 {
            self.head.forward@[l]
        } else {
            self.node(self.order@[p] as int).head.forward@[l]
        }
    }

    /// The slot of the node at position `q`, or `None` past the last node.
    spec fn target(&self, q: int) -> Option<usize> {
        if 0 <= q < self.n() {
            Some(self.order@[q])
        } else {
            None
        }
    }

    /// The slot that names position `p` in a search (`None` for the head).
    spec fn slot_of(&self, p: int) -> Option<usize> {
        if p < 0 {
            None
        } else {
            Some(self.order@[p])
        }
    }

    /// The arena holds exactly the nodes in `order`, plus free slots.
    spec fn wf_slots(&self) -> bool {
        &&& self.len == self.order@.len()
        &&& self.order@.no_duplicates()
        &&& self.free@.no_duplicates()
        &&& self.nodes@.len() == self.order@.len() + self.free@.len()
        &&& forall|p: int|
            0 <= p < self.n() ==> #[trigger] self.order@[p] < self.nodes@.len()
                && self.nodes@[self.order@[p] as int] is Some
        &&& forall|k: int|
            0 <= k < self.free@.len() ==> #[trigger] self.free@[k] < self.nodes@.len()
                && self.nodes@[self.free@[k] as int] is None
    }

    /// Every lane link points to the next node of its lane.
    spec fn wf_links(&self) -> bool {
        forall|p: int, l: int|
            -1 <= p < self.n() && 0 <= l < self.height_at(p) ==> #[trigger] self.link(p, l)
                == self.target(next_at(self.hs(), p, l))
    }

    /// The arena, the keys and the lane links are consistent.
    spec fn wf_base(&self) -> bool {
        &&& self.head.forward@.len() == MAX_LEVEL
        &&& self.wf_slots()
        &&& forall|p: int, q: int|
            0 <= p < q < self.n() ==> #[trigger] self.key_at(p) != #[trigger] self.key_at(q)
        &&& self.wf_links()
    }

    /// The list is well formed.
    pub closed spec fn wf(&self) -> bool {
        &&& self.wf_base()
        &&& 1 <= self.level <= MAX_LEVEL
        &&& forall|p: int| 0 <= p < self.n() ==> 1 <= #[trigger] self.height_at(p) <= self.level
        &&& self.level > 1 ==> self.head.forward@[self.level - 1] is Some
    }

    /// The keys in ascending order.
    pub closed spec fn sorted(&self) -> bool
        where K: Ord
    {
        forall|p: int, q: int|
            0 <= p < q < self.n() ==> key_lt(#[trigger] self.key_at(p), #[trigger] self.key_at(q))
    }

    /// The level in use: that of the tallest node, at least 1.
    pub closed spec fn spec_level(&self) -> nat {
        self.level as nat
    }

    /// The map from keys to values.
    pub closed spec fn entries(&self) -> Map<K, V> {
        Map::new(
            |k: K| exists|p: int| 0 <= p < self.n() && self.key_at(p) == k,
            |k: K| self.value_at(choose|p: int| 0 <= p < self.n() && self.key_at(p) == k),
        )
    }

    /// The level of the node of each key.
    pub closed spec fn heights(&self) -> Map<K, nat> {
        Map::new(
            |k: K| exists|p: int| 0 <= p < self.n() && self.key_at(p) == k,
            |k: K| self.height_at(choose|p: int| 0 <= p < self.n() && self.key_at(p) == k),
        )
    }
}

// Construction and queries.

impl<K, V> SkipList<K, V> {
    /// The keys in key order.
    spec fn keys(&self) -> Seq<K> {
        Seq::new(self.order@.len(), |p: int| self.key_at(p))
    }

    /// What the map and the levels hold, read off the nodes in key order.
    proof fn lemma_view(&self)
        requires
            self.wf(),
        ensures
            forall|p: int|
                0 <= p < self.n() ==> {
                    &&& self@.contains_key(#[trigger] self.key_at(p))
                    &&& self@[self.key_at(p)] == self.value_at(p)
                    &&& self.heights().contains_key(self.key_at(p))
                    &&& self.heights()[self.key_at(p)] == self.height_at(p)
                },
            forall|k: K|
                #[trigger] self@.contains_key(k) ==> exists|p: int|
                    0 <= p < self.n() && self.key_at(p) == k,
            self@.dom() == self.keys().to_set(),
            self.heights().dom() == self@.dom(),
            self@.dom().finite(),
            self@.len() == self.n(),
    {
        self.lemma_view_base();
    }

    /// What the map and the levels hold, read off the nodes in key order.
    proof fn lemma_view_base(&self)
        requires
            self.wf_base(),
        ensures
            forall|p: int|
                0 <= p < self.n() ==> {
                    &&& self@.contains_key(#[trigger] self.key_at(p))
                    &&& self@[self.key_at(p)] == self.value_at(p)
                    &&& self.heights().contains_key(self.key_at(p))
                    &&& self.heights()[self.key_at(p)] == self.height_at(p)
                },
            forall|k: K|
                #[trigger] self@.contains_key(k) ==> exists|p: int|
                    0 <= p < self.n() && self.key_at(p) == k,
            self@.dom() == self.keys().to_set(),
            self.heights().dom() == self@.dom(),
            self@.dom().finite(),
            self@.len() == self.n(),
    {
        assert forall|p: int| 0 <= p < self.n() implies {
            &&& self@.contains_key(#[trigger] self.key_at(p))
            &&& self@[self.key_at(p)] == self.value_at(p)
            &&& self.heights().contains_key(self.key_at(p))
            &&& self.heights()[self.key_at(p)] == self.height_at(p)
        } by {
            let k = self.key_at(p);
            let c = choose|c: int| 0 <= c < self.n() && self.key_at(c) == k;
            assert(0 <= c < self.n() && self.key_at(c) == k);
            if c < p {
                assert(self.key_at(c) != self.key_at(p));
            } else if p < c {
                assert(self.key_at(p) != self.key_at(c));
            }
        }
        assert(self@.dom() =~= self.keys().to_set()) by {
            assert forall|k: K| self@.dom().contains(k) implies self.keys().to_set().contains(k) by {
                let p = choose|p: int| 0 <= p < self.n() && self.key_at(p) == k;
                assert(self.keys()[p] == k);
            }
            assert forall|k: K| self.keys().to_set().contains(k) implies self@.dom().contains(k) by {
                let p = choose|p: int| 0 <= p < self.keys().len() && self.keys()[p] == k;
                assert(self.key_at(p) == k);
            }
        }
        assert(self.heights().dom() =~= self@.dom());
        assert(self.keys().no_duplicates()) by {
            assert forall|i: int, j: int|
                0 <= i < self.keys().len() && 0 <= j < self.keys().len() && i != j
                implies self.keys()[i] != self.keys()[j] by {
                if i < j {
                    assert(self.key_at(i) != self.key_at(j));
                } else {
                    assert(self.key_at(j) != self.key_at(i));
                }
            }
        }
        self.keys().unique_seq_to_set();
        vstd::seq_lib::seq_to_set_is_finite(self.keys());
    }

    /// The number of entries.
    pub fn len(&self) -> (r: usize)
        requires
            self.wf(),
        ensures
            r == self@.len(),
    {
        proof {
            self.lemma_view();
        }
        self.len
    }

    /// Whether the map holds no entry.
    pub fn is_empty(&self) -> (r: bool)
        requires
            self.wf(),
        ensures
            r == (self@.len() == 0),
    {
        proof {
            self.lemma_view();
        }
        self.len == 0
    }
}

impl<K, V> SkipList<K, V> {
    /// What every well-formed list keeps: each key has a node of a level
    /// between 1 and `MAX_LEVEL`, and the list's level is that of its
    /// tallest node, or 1 when it is empty.
    pub proof fn lemma_wf(&self)
        requires
            self.wf(),
        ensures
            self@.dom().finite(),
            self.heights().dom() == self@.dom(),
            forall|k: K| #[trigger] self.heights().contains_key(k) ==> self.heights()[k] <= MAX_LEVEL,
            is_level_of(self.heights(), self.spec_level()),
            self.spec_level() <= MAX_LEVEL,
    {
        self.lemma_view();
        assert forall|k: K| #[trigger] self.heights().contains_key(k) implies 1 <= self.heights()[k]
            <= self.spec_level() by {
            let p = choose|p: int| 0 <= p < self.n() && self.key_at(p) == k;
            assert(1 <= self.height_at(p) <= self.level);
        }
        if self.level > 1 {
            let top = self.level - 1;
            lemma_next_at(self.hs(), -1, top as int);
            assert(self.link(-1, top as int) == self.target(next_at(self.hs(), -1, top as int)));
            let t = next_at(self.hs(), -1, top as int);
            assert(self.hs()[t] == self.height_at(t));
            let k = self.key_at(t);
            assert(self.heights().contains_key(k) && self.heights()[k] == self.spec_level());
        }
    }

    /// The number of lanes in use: that of the tallest node, or 1 when the
    /// list is empty.
    pub fn level(&self) -> (r: usize)
        requires
            self.wf(),
        ensures
            r == self.spec_level(),
            is_level_of(self.heights(), r as nat),
    {
        proof {
            self.lemma_wf();
        }
        self.level
    }
}

impl<K: Ord, V> SkipList<K, V> {
    /// The map holds at most one key of each class of equal keys.
    pub proof fn lemma_key_classes(&self)
        requires
            self.wf(),
            self.sorted(),
            total_key_order::<K>(),
        ensures
            one_key_per_class(self@),
    {
        lemma_key_order::<K>();
        self.lemma_view();
        assert forall|a: K, b: K|
            #[trigger] self@.contains_key(a) && #[trigger] self@.contains_key(b) && key_eq(a, b)
            implies a == b by {
            let pa = choose|p: int| 0 <= p < self.n() && self.key_at(p) == a;
            let pb = choose|p: int| 0 <= p < self.n() && self.key_at(p) == b;
            if pa < pb {
                assert(key_lt(self.key_at(pa), self.key_at(pb)));
            } else if pb < pa {
                assert(key_lt(self.key_at(pb), self.key_at(pa)));
            }
        }
    }

    /// An empty skip list.
    pub fn new() -> (s: Self)
        ensures
            s.wf(),
            s.sorted(),
            s@ == Map::<K, V>::empty(),
            s.heights() == Map::<K, nat>::empty(),
            s.spec_level() == 1,
    {
        NodeHead::sentinel_fits();
        let head = match NodeHead::new(MAX_LEVEL) {
            Ok(h) => h,
            Err(_) => {
                assert(false);
                NodeHead { forward: Vec::new() }
            },
        };
        let s = SkipList {
            len: 0,
            level: 1,
            head,
            nodes: Vec::new(),
            free: Vec::new(),
            order: Ghost(Seq::empty()),
        };
        proof {
            assert forall|p: int, l: int|
                -1 <= p < s.n() && 0 <= l < s.height_at(p) implies #[trigger] s.link(p, l)
                == s.target(next_at(s.hs(), p, l)) by {
                assert(s.head.forward@ == unlinked(MAX_LEVEL as nat));
            }
            assert(s@ =~= Map::<K, V>::empty());
            assert(s.heights() =~= Map::<K, nat>::empty());
        }
        s
    }
}

impl<K: Ord, V> Default for SkipList<K, V> {
    /// An empty skip list.
    fn default() -> (s: Self)
        ensures
            s.wf(),
            s.sorted(),
            s@ == Map::<K, V>::empty(),
            s.heights() == Map::<K, nat>::empty(),
            s.spec_level() == 1,
    {
        SkipList::new()
    }
}

// Reading and writing nodes.

impl<K, V> SkipList<K, V> {
    /// The lane-`l` link of the node that `from` names (the head for
    /// `None`).
    fn read_link(&self, from: Option<usize>, l: usize, Ghost(p): Ghost<int>) -> (r: Option<usize>)
        requires
            self.wf(),
            -1 <= p < self.n(),
            from == self.slot_of(p),
            l < self.height_at(p),
        ensures
            r == self.link(p, l as int),
    {
        match from {
            None => self.head.forward[l],
            Some(id) => {
                assert(self.order@[p] < self.nodes@.len());
                match &self.nodes[id] {
                    Some(b) => b.head.forward[l],
                    None => None,
                }
            },
        }
    }

    /// The key of the node in slot `id`, at position `p`.
    fn key_ref(&self, id: usize, Ghost(p): Ghost<int>) -> (r: &K)
        requires
            self.wf(),
            0 <= p < self.n(),
            id == self.order@[p],
        ensures
            *r == self.key_at(p),
    {
        assert(self.order@[p] < self.nodes@.len());
        match &self.nodes[id] {
            Some(b) => &b.key,
            None => {
                assert(false);
                &self.nodes[id].as_ref().unwrap().key
            },
        }
    }
}

impl<K, V> SkipList<K, V> {
    /// Sets the lane-`l` link of the node that `from` names (the head for
    /// `None`) to `to`, leaving everything else as it was.
    fn set_link(&mut self, from: Option<usize>, l: usize, to: Option<usize>)
        requires
            from is None ==> l < old(self).head.forward@.len(),
            match from {
                None => true,
                Some(id) => id < old(self).nodes@.len() && old(self).nodes@[id as int] is Some
                    && l < old(self).node(id as int).head.forward@.len(),
            },
        ensures
            final(self).len == old(self).len,
            final(self).level == old(self).level,
            final(self).free@ == old(self).free@,
            final(self).order@ == old(self).order@,
            final(self).nodes@.len() == old(self).nodes@.len(),
            match from {
                None => {
                    &&& final(self).head.forward@ == old(self).head.forward@.update(l as int, to)
                    &&& final(self).nodes@ == old(self).nodes@
                },
                Some(id) => {
                    &&& final(self).head.forward@ == old(self).head.forward@
                    &&& forall|i: int|
                        0 <= i < final(self).nodes@.len() && i != id ==> final(self).nodes@[i]
                            == old(self).nodes@[i]
                    &&& final(self).nodes@[id as int] is Some
                    &&& final(self).node(id as int).key == old(self).node(id as int).key
                    &&& final(self).node(id as int).value == old(self).node(id as int).value
                    &&& final(self).node(id as int).head.forward@ == old(self).node(
                        id as int,
                    ).head.forward@.update(l as int, to)
                },
            },
    {
        match from {
            None => {
                self.head.forward.set(l, to);
            },
            Some(id) => {
                self.nodes.push(None);
                let slot = self.nodes.swap_remove(id);
                match slot {
                    Some(mut b) => {
                        b.head.forward.set(l, to);
                        self.nodes.set(id, Some(b));
                    },
                    None => {},
                }
            },
        }
    }
}

impl<K, V> SkipList<K, V> {
    /// Puts `value` in the node in slot `id` and hands back the value it
    /// held, leaving everything else as it was.
    fn replace_value(&mut self, id: usize, value: V) -> (r: V)
        requires
            id < old(self).nodes@.len(),
            old(self).nodes@[id as int] is Some,
        ensures
            r == old(self).node(id as int).value,
            final(self).len == old(self).len,
            final(self).level == old(self).level,
            final(self).free@ == old(self).free@,
            final(self).order@ == old(self).order@,
            final(self).head == old(self).head,
            final(self).nodes@.len() == old(self).nodes@.len(),
            forall|i: int|
                0 <= i < final(self).nodes@.len() && i != id ==> final(self).nodes@[i] == old(
                    self,
                ).nodes@[i],
            final(self).nodes@[id as int] is Some,
            final(self).node(id as int).key == old(self).node(id as int).key,
            final(self).node(id as int).value == value,
            final(self).fwd(id as int) == old(self).fwd(id as int),
    {
        self.nodes.push(None);
        let slot = self.nodes.swap_remove(id);
        match slot {
            Some(mut b) => {
                let mut v = value;
                core::mem::swap(&mut b.value, &mut v);
                self.nodes.set(id, Some(b));
                v
            },
            None => {
                assert(false);
                value
            },
        }
    }
}

// Search.

impl<K: Ord, V> SkipList<K, V> {
    /// `upd` and `upos` record, for each lane, the last node before `key`
    /// in that lane (by slot and by position), as a search leaves them.
    spec fn preds_ok(&self, key: K, upd: Seq<Option<usize>>, upos: Seq<int>) -> bool {
        &&& upd.len() == MAX_LEVEL
        &&& upos.len() == MAX_LEVEL
        &&& forall|l: int|
            0 <= l < MAX_LEVEL ==> {
                &&& -1 <= #[trigger] upos[l] <= upos[0]
                &&& upd[l] == self.slot_of(upos[l])
                &&& l < self.height_at(upos[l])
                &&& l >= self.level ==> upos[l] == -1
                &&& next_at(self.hs(), upos[l], l) > upos[0]
            }
        &&& upos[0] < self.n()
        &&& forall|r: int| 0 <= r <= upos[0] ==> key_lt(#[trigger] self.key_at(r), key)
        &&& upos[0] + 1 < self.n() ==> !key_lt(self.key_at(upos[0] + 1), key)
    }

    /// For each lane, the last node whose key sorts before `key`.
    fn find_preds(&self, key: &K) -> (res: (Vec<Option<usize>>, Ghost<Seq<int>>))
        requires
            self.wf(),
            self.sorted(),
            total_key_order::<K>(),
        ensures
            self.preds_ok(*key, res.0@, res.1@),
    {
        proof {
            lemma_key_order::<K>();
        }
        let mut update: Vec<Option<usize>> = Vec::new();
        let mut j: usize = 0;
        while j < MAX_LEVEL
            invariant
                j <= MAX_LEVEL,
                update@ == Seq::new(j as nat, |i: int| None::<usize>),
            decreases MAX_LEVEL - j,
        {
            update.push(None);
            j += 1;
            assert(update@ =~= Seq::new(j as nat, |i: int| None::<usize>));
        }
        let ghost mut upos: Seq<int> = Seq::new(MAX_LEVEL as nat, |i: int| -1);
        let mut x: Option<usize> = None;
        let ghost mut pos: int = -1;
        let mut i: usize = self.level;
        proof {
            assert forall|l: int| self.level <= l < MAX_LEVEL implies ({
                let t = next_at(self.hs(), #[trigger] upos[l], l);
                t == self.n() || !key_lt(self.key_at(t), *key)
            }) by {
                lemma_next_at(self.hs(), -1, l);
                let t = next_at(self.hs(), -1, l);
                if t < self.n() {
                    assert(self.hs()[t] == self.height_at(t));
                }
            }
        }
        while i > 0
            invariant
                self.wf(),
                self.sorted(),
                total_key_order::<K>(),
                0 <= i <= self.level,
                -1 <= pos < self.n(),
                x == self.slot_of(pos),
                pos >= 0 ==> self.height_at(pos) >= i,
                forall|r: int| 0 <= r <= pos ==> key_lt(#[trigger] self.key_at(r), *key),
                update@.len() == MAX_LEVEL,
                upos.len() == MAX_LEVEL,
                forall|l: int|
                    0 <= l < MAX_LEVEL ==> {
                        &&& -1 <= #[trigger] upos[l] < self.n()
                        &&& update@[l] == self.slot_of(upos[l])
                        &&& l < self.height_at(upos[l])
                        &&& l >= self.level ==> upos[l] == -1
                        &&& l < i ==> upos[l] == -1
                        &&& l >= i ==> upos[l] <= pos
                        &&& l >= i ==> ({
                            let t = next_at(self.hs(), upos[l], l);
                            t == self.n() || !key_lt(self.key_at(t), *key)
                        })
                    },
            decreases i,
        {
            let lvl = i - 1;
            let ghost start = pos;
            loop
                invariant
                    start <= pos,
                    self.wf(),
                    self.sorted(),
                    total_key_order::<K>(),
                    lvl < self.level,
                    -1 <= pos < self.n(),
                    x == self.slot_of(pos),
                    lvl < self.height_at(pos),
                    forall|r: int| 0 <= r <= pos ==> key_lt(#[trigger] self.key_at(r), *key),
                ensures
                    start <= pos,
                    -1 <= pos < self.n(),
                    x == self.slot_of(pos),
                    lvl < self.height_at(pos),
                    forall|r: int| 0 <= r <= pos ==> key_lt(#[trigger] self.key_at(r), *key),
                    ({
                        let t = next_at(self.hs(), pos, lvl as int);
                        t == self.n() || !key_lt(self.key_at(t), *key)
                    }),
                decreases self.n() - pos,
            {
                proof {
                    lemma_key_order::<K>();
                    lemma_next_at(self.hs(), pos, lvl as int);
                }
                let next = self.read_link(x, lvl, Ghost(pos));
                match next {
                    None => {
                        break;
                    },
                    Some(id) => {
                        let ghost t = next_at(self.hs(), pos, lvl as int);
                        if *self.key_ref(id, Ghost(t)) < *key {
                            proof {
                                assert forall|r: int| 0 <= r <= t implies key_lt(
                                    #[trigger] self.key_at(r),
                                    *key,
                                ) by {
                                    if pos < r < t {
                                        assert(key_lt(self.key_at(r), self.key_at(t)));
                                    }
                                }
                                pos = t;
                            }
                            x = Some(id);
                        } else {
                            break;
                        }
                    },
                }
            }
            update.set(lvl, x);
            proof {
                upos = upos.update(lvl as int, pos);
            }
            i = lvl;
        }
        proof {
            lemma_next_at(self.hs(), pos, 0);
            assert forall|l: int| 0 <= l < MAX_LEVEL implies next_at(
                self.hs(),
                #[trigger] upos[l],
                l,
            ) > upos[0] by {
                lemma_next_at(self.hs(), upos[l], l);
                let t = next_at(self.hs(), upos[l], l);
                if t <= upos[0] {
                    assert(key_lt(self.key_at(t), *key));
                }
            }
        }
        (update, Ghost(upos))
    }
}

impl<K: Ord, V> SkipList<K, V> {
    /// A key that sorts after the first `q` keys and is not the key at `q`
    /// (nor before it) is absent.
    proof fn lemma_absent(&self, key: K, q: int)
        requires
            self.wf(),
            self.sorted(),
            total_key_order::<K>(),
            0 <= q <= self.n(),
            forall|r: int| 0 <= r < q ==> key_lt(#[trigger] self.key_at(r), key),
            q < self.n() ==> !key_lt(self.key_at(q), key) && !key_eq(self.key_at(q), key),
        ensures
            !has_equal_key(self@, key),
            stored_key(self@, key) == key,
            !self@.contains_key(key),
    {
        lemma_key_order::<K>();
        self.lemma_view();
        if has_equal_key(self@, key) {
            let k = choose|k: K| #[trigger] self@.contains_key(k) && key_eq(k, key);
            let p = choose|p: int| 0 <= p < self.n() && self.key_at(p) == k;
            if p < q {
                assert(key_lt(self.key_at(p), key));
            } else if p > q {
                assert(key_lt(key, self.key_at(q)));
                assert(key_lt(self.key_at(q), self.key_at(p)));
            }
        }
        assert(key_eq(key, key));
    }

    /// A key that compares equal to the key at `p` is filed under that key.
    proof fn lemma_equal_key(&self, key: K, p: int)
        requires
            self.wf(),
            self.sorted(),
            total_key_order::<K>(),
            0 <= p < self.n(),
            key_eq(self.key_at(p), key),
        ensures
            has_equal_key(self@, key),
            stored_key(self@, key) == self.key_at(p),
            self@.contains_key(self.key_at(p)),
    {
        lemma_key_order::<K>();
        self.lemma_view();
        assert(self@.contains_key(self.key_at(p)));
        let k = choose|k: K| #[trigger] self@.contains_key(k) && key_eq(k, key);
        let p2 = choose|p2: int| 0 <= p2 < self.n() && self.key_at(p2) == k;
        assert(key_eq(self.key_at(p2), self.key_at(p)));
        if p2 < p {
            assert(key_lt(self.key_at(p2), self.key_at(p)));
        } else if p < p2 {
            assert(key_lt(self.key_at(p), self.key_at(p2)));
        }
    }

    /// The value of the node in slot `id`, at position `p`.
    fn value_ref(&self, id: usize, Ghost(p): Ghost<int>) -> (r: &V)
        requires
            self.wf(),
            0 <= p < self.n(),
            id == self.order@[p],
        ensures
            *r == self.value_at(p),
    {
        assert(self.order@[p] < self.nodes@.len());
        match &self.nodes[id] {
            Some(b) => &b.value,
            None => {
                assert(false);
                &self.nodes[id].as_ref().unwrap().value
            },
        }
    }

    /// The value stored under the key that compares equal to `key`, if
    /// there is one.
    pub fn get(&self, key: &K) -> (r: Option<&V>)
        requires
            self.wf(),
            self.sorted(),
            total_key_order::<K>(),
        ensures
            match r {
                Some(v) => has_equal_key(self@, *key) && *v == self@[stored_key(self@, *key)],
                None => !has_equal_key(self@, *key),
            },
    {
        proof {
            lemma_key_order::<K>();
        }
        let (update, Ghost(upos)) = self.find_preds(key);
        let ghost q = upos[0] + 1;
        proof {
            lemma_next_at(self.hs(), upos[0], 0);
            if q < self.n() {
                lemma_next_at_is(self.hs(), upos[0], 0, q);
            }
        }
        let candidate = self.read_link(update[0], 0, Ghost(upos[0]));
        match candidate {
            None => {
                proof {
                    self.lemma_absent(*key, q);
                }
                None
            },
            Some(id) => {
                if *self.key_ref(id, Ghost(q)) == *key {
                    proof {
                        self.lemma_equal_key(*key, q);
                        self.lemma_view();
                    }
                    Some(self.value_ref(id, Ghost(q)))
                } else {
                    proof {
                        self.lemma_absent(*key, q);
                    }
                    None
                }
            },
        }
    }
}

impl<K: Ord, V> SkipList<K, V> {
    /// The keys of the nodes in lane `l`, that is of the nodes whose level
    /// exceeds `l`, in ascending order.
    pub fn lane_keys(&self, l: usize) -> (r: Vec<&K>)
        requires
            self.wf(),
            self.sorted(),
            l < MAX_LEVEL,
        ensures
            is_lane(self.heights(), l as int, r@),
    {
        let mut keys: Vec<&K> = Vec::new();
        let mut x: Option<usize> = None;
        let ghost mut cur: int = -1;
        let ghost mut ps: Seq<int> = Seq::empty();
        loop
            invariant
                self.wf(),
                self.sorted(),
                l < MAX_LEVEL,
                -1 <= cur < self.n(),
                x == self.slot_of(cur),
                l < self.height_at(cur),
                keys@.len() == ps.len(),
                forall|i: int| 0 <= i < ps.len() ==> 0 <= #[trigger] ps[i] <= cur,
                forall|i: int, j: int| 0 <= i < j < ps.len() ==> ps[i] < ps[j],
                forall|i: int| 0 <= i < ps.len() ==> self.height_at(#[trigger] ps[i]) > l,
                forall|i: int| 0 <= i < ps.len() ==> *keys@[i] == self.key_at(#[trigger] ps[i]),
                forall|p: int|
                    0 <= p <= cur && #[trigger] self.height_at(p) > l ==> exists|i: int|
                        0 <= i < ps.len() && ps[i] == p,
            ensures
                keys@.len() == ps.len(),
                forall|i: int| 0 <= i < ps.len() ==> 0 <= #[trigger] ps[i] < self.n(),
                forall|i: int, j: int| 0 <= i < j < ps.len() ==> ps[i] < ps[j],
                forall|i: int| 0 <= i < ps.len() ==> self.height_at(#[trigger] ps[i]) > l,
                forall|i: int| 0 <= i < ps.len() ==> *keys@[i] == self.key_at(#[trigger] ps[i]),
                forall|p: int|
                    0 <= p < self.n() && #[trigger] self.height_at(p) > l ==> exists|i: int|
                        0 <= i < ps.len() && ps[i] == p,
            decreases self.n() - cur,
        {
            proof {
                lemma_next_at(self.hs(), cur, l as int);
            }
            let next = self.read_link(x, l, Ghost(cur));
            let ghost t = next_at(self.hs(), cur, l as int);
            match next {
                None => {
                    proof {
                        assert forall|p: int|
                            0 <= p < self.n() && #[trigger] self.height_at(p) > l implies exists|i: int|
                            0 <= i < ps.len() && ps[i] == p by {
                            if p > cur {
                                assert(self.hs()[p] == self.height_at(p));
                            }
                        }
                    }
                    break;
                },
                Some(id) => {
                    let k = self.key_ref(id, Ghost(t));
                    keys.push(k);
                    proof {
                        let old_ps = ps;
                        ps = ps.push(t);
                        assert(self.hs()[t] == self.height_at(t));
                        assert forall|p: int|
                            0 <= p <= t && #[trigger] self.height_at(p) > l implies exists|i: int|
                            0 <= i < ps.len() && ps[i] == p by {
                            if p == t {
                                assert(ps[old_ps.len() as int] == t);
                            } else if p > cur {
                                assert(self.hs()[p] == self.height_at(p));
                            } else {
                                let i = choose|i: int| 0 <= i < old_ps.len() && old_ps[i] == p;
                                assert(ps[i] == p);
                            }
                        }
                        cur = t;
                    }
                    x = Some(id);
                },
            }
        }
        proof {
            self.lemma_view();
            assert forall|i: int, j: int| 0 <= i < j < keys@.len() implies key_lt(
                *keys@[i],
                *keys@[j],
            ) by {
                assert(ps[i] < ps[j]);
                assert(key_lt(self.key_at(ps[i]), self.key_at(ps[j])));
            }
            assert forall|k: K|
                (exists|i: int| 0 <= i < keys@.len() && *keys@[i] == k) <==> (
                #[trigger] self.heights().contains_key(k) && self.heights()[k] > l) by {
                if exists|i: int| 0 <= i < keys@.len() && *keys@[i] == k {
                    let i = choose|i: int| 0 <= i < keys@.len() && *keys@[i] == k;
                    assert(self.key_at(ps[i]) == k);
                }
                if self.heights().contains_key(k) && self.heights()[k] > l {
                    let p = choose|p: int| 0 <= p < self.n() && self.key_at(p) == k;
                    assert(self.height_at(p) > l);
                    let i = choose|i: int| 0 <= i < ps.len() && ps[i] == p;
                    assert(*keys@[i] == k);
                }
            }
        }
        keys
    }

    /// Every lane, the top lane first: entry `i` holds the keys of lane
    /// `MAX_LEVEL - 1 - i` in ascending order. The last entry, lane 0, holds
    /// every key of the map, and every entry is empty exactly when the map
    /// is.
    pub fn lanes(&self) -> (r: Vec<Vec<&K>>)
        requires
            self.wf(),
            self.sorted(),
        ensures
            r@.len() == MAX_LEVEL,
            forall|i: int|
                0 <= i < MAX_LEVEL ==> is_lane(self.heights(), MAX_LEVEL - 1 - i, #[trigger] r@[i]@),
            forall|k: K|
                (exists|i: int|
                    0 <= i < r@[MAX_LEVEL - 1]@.len() && *#[trigger] r@[MAX_LEVEL - 1]@[i] == k)
                    <==> #[trigger] self@.contains_key(k),
            (forall|i: int| 0 <= i < MAX_LEVEL ==> #[trigger] r@[i]@.len() == 0) <==> self@.len()
                == 0,
    {
        let mut all: Vec<Vec<&K>> = Vec::new();
        let mut l: usize = MAX_LEVEL;
        while l > 0
            invariant
                self.wf(),
                self.sorted(),
                l <= MAX_LEVEL,
                all@.len() == MAX_LEVEL - l,
                forall|i: int|
                    0 <= i < all@.len() ==> is_lane(
                        self.heights(),
                        MAX_LEVEL - 1 - i,
                        #[trigger] all@[i]@,
                    ),
            decreases l,
        {
            l -= 1;
            let lane = self.lane_keys(l);
            all.push(lane);
        }
        proof {
            self.lemma_wf();
            let bottom = all@[MAX_LEVEL - 1]@;
            assert(is_lane(self.heights(), 0, bottom));
            assert forall|k: K|
                (exists|i: int| 0 <= i < bottom.len() && *#[trigger] bottom[i] == k) <==> #[trigger] self@.contains_key(
                    k,
                ) by {
                if self@.contains_key(k) {
                    assert(self.heights().contains_key(k));
                    assert(self.heights()[k] >= 1);
                }
            }
            if self@.len() == 0 {
                assert forall|i: int| 0 <= i < MAX_LEVEL implies #[trigger] all@[i]@.len() == 0 by {
                    let lane = all@[i]@;
                    assert(is_lane(self.heights(), MAX_LEVEL - 1 - i, lane));
                    if lane.len() > 0 {
                        assert(self.heights().contains_key(*lane[0]));
                        assert(self@.dom().contains(*lane[0]));
                        vstd::set_lib::lemma_set_empty_equivalency_len(self@.dom());
                    }
                }
            } else {
                vstd::set_lib::lemma_set_empty_equivalency_len(self@.dom());
                let k = self@.dom().choose();
                assert(self@.contains_key(k));
                let i = choose|i: int| 0 <= i < bottom.len() && *bottom[i] == k;
                assert(all@[MAX_LEVEL - 1]@.len() != 0);
            }
        }
        all
    }
}

// Insertion.

impl<K, V> SkipList<K, V> {
    /// The forward links of the node in slot `id`.
    spec fn fwd(&self, id: int) -> Seq<Option<usize>> {
        self.node(id).head.forward@
    }

    /// `self` is `old` with a node for `key` of level `h` placed in slot
    /// `f` at position `q`, and the links of the lanes below `l` that
    /// `upos` records pointed at it.
    spec fn inserted(
        &self,
        old: Self,
        key: K,
        value: V,
        q: int,
        f: usize,
        upos: Seq<int>,
        h: int,
        l: int,
    ) -> bool {
        &&& self.order@ == old.order@.insert(q, f)
        &&& self.wf_slots()
        &&& self.level == (if old.level < h { h } else { old.level as int })
        &&& self.head.forward@.len() == MAX_LEVEL
        &&& forall|j: int|
            0 <= j < MAX_LEVEL ==> #[trigger] self.head.forward@[j] == if j < l && upos[j] == -1 {
                Some(f)
            } else {
                old.head.forward@[j]
            }
        &&& self.node(f as int).key == key
        &&& self.node(f as int).value == value
        &&& self.fwd(f as int).len() == h
        &&& forall|j: int| 0 <= j < h ==> #[trigger] self.fwd(f as int)[j] == old.link(upos[j], j)
        &&& forall|p: int|
            0 <= p < old.n() ==> {
                &&& self.node(#[trigger] old.order@[p] as int).key == old.node(old.order@[p] as int).key
                &&& self.node(old.order@[p] as int).value == old.node(old.order@[p] as int).value
                &&& self.fwd(old.order@[p] as int).len() == old.fwd(old.order@[p] as int).len()
                &&& forall|j: int|
                    0 <= j < old.fwd(old.order@[p] as int).len() ==> #[trigger] self.fwd(
                        old.order@[p] as int,
                    )[j] == if j < l && upos[j] == p {
                        Some(f)
                    } else {
                        old.fwd(old.order@[p] as int)[j]
                    }
            }
    }
}

impl<K: Ord, V> SkipList<K, V> {
    /// Once every lane below its level links to it, the new node leaves a
    /// well-formed, sorted list whose map gained the new entry.
    #[verifier::spinoff_prover]
    proof fn lemma_inserted(
        new: Self,
        old: Self,
        key: K,
        value: V,
        f: usize,
        upd: Seq<Option<usize>>,
        upos: Seq<int>,
        h: int,
    )
        requires
            old.wf(),
            old.sorted(),
            total_key_order::<K>(),
            old.preds_ok(key, upd, upos),
            upos[0] + 1 < old.n() ==> !key_eq(old.key_at(upos[0] + 1), key),
            1 <= h <= MAX_LEVEL,
            new.inserted(old, key, value, upos[0] + 1, f, upos, h, h),
            new.len == old.len + 1,
        ensures
            new.wf(),
            new.sorted(),
            new@ == old@.insert(key, value),
            new.heights() == old.heights().insert(key, h as nat),
    {
        lemma_key_order::<K>();
        let q = upos[0] + 1;
        let n = old.n();
        let ohs = old.hs();
        let nhs = new.hs();
        // Positions after `q` hold the nodes that were one place earlier.
        assert forall|p: int| 0 <= p < new.n() implies {
            &&& #[trigger] new.key_at(p) == if p < q { old.key_at(p) } else if p == q { key } else { old.key_at(p - 1) }
            &&& new.value_at(p) == if p < q { old.value_at(p) } else if p == q { value } else { old.value_at(p - 1) }
            &&& new.height_at(p) == if p < q { old.height_at(p) } else if p == q { h as nat } else { old.height_at(p - 1) }
        } by {
            if p < q {
                assert(new.order@[p] == old.order@[p]);
            } else if p > q {
                assert(new.order@[p] == old.order@[p - 1]);
            }
        }
        assert(nhs =~= ohs.insert(q, h as nat));
        // The targets of links move with the nodes.
        assert forall|t: int| 0 <= t <= n implies #[trigger] old.target(t) == new.target(
            if t < q { t } else { t + 1 },
        ) by {}
        assert(new.target(q) == Some(f));
        // Lane links.
        assert forall|p2: int, l: int|
            -1 <= p2 < new.n() && 0 <= l < new.height_at(p2) implies #[trigger] new.link(p2, l)
            == new.target(next_at(nhs, p2, l)) by {
            if p2 == q {
                let u = upos[l];
                assert(0 <= l < MAX_LEVEL);
                lemma_next_at(ohs, u, l);
                let t = next_at(ohs, u, l);
                assert(old.link(u, l) == old.target(t));
                if u < q - 1 {
                    assert forall|k: int| q - 1 < k < t implies ohs[k] <= l by {
                        assert(u < k < t);
                    }
                }
                lemma_next_at_is(ohs, q - 1, l, t);
                lemma_next_at_inserted(ohs, q, h as nat, l);
                assert(new.link(q, l) == new.fwd(f as int)[l]);
            } else {
                let p = if p2 < q { p2 } else { p2 - 1 };
                assert(0 <= l < MAX_LEVEL);
                lemma_next_at(ohs, p, l);
                let t = next_at(ohs, p, l);
                lemma_next_at_insert(ohs, q, h as nat, p, l);
                assert(old.height_at(p) > l);
                if p >= 0 {
                    assert(new.order@[p2] == old.order@[p]);
                    assert(new.link(p2, l) == new.fwd(old.order@[p] as int)[l]);
                }
                if l < h && upos[l] == p {
                    assert(new.link(p2, l) == Some(f));
                } else {
                    assert(new.link(p2, l) == old.link(p, l));
                    if p < q && q <= t && h > l {
                        let u = upos[l];
                        lemma_next_at(ohs, u, l);
                        if p < u {
                            assert(ohs[u] <= l);
                        } else {
                            assert(ohs[p] <= l);
                        }
                    }
                }
            }
        }
        // Order and distinctness.
        assert forall|a: int, b: int| 0 <= a < b < new.n() implies key_lt(
            #[trigger] new.key_at(a),
            #[trigger] new.key_at(b),
        ) by {
            if b == q {
                assert(key_lt(old.key_at(a), key));
            } else if a == q {
                assert(!key_lt(old.key_at(q), key));
                assert(key_lt(key, old.key_at(q)));
                if b - 1 > q {
                    assert(key_lt(old.key_at(q), old.key_at(b - 1)));
                }
            } else if a < q && b > q {
                assert(key_lt(old.key_at(a), key));
                assert(key_lt(key, old.key_at(q)));
                if b - 1 > q {
                    assert(key_lt(old.key_at(q), old.key_at(b - 1)));
                }
            }
        }
        assert forall|a: int, b: int| 0 <= a < b < new.n() implies #[trigger] new.key_at(a)
            != #[trigger] new.key_at(b) by {
            assert(key_lt(new.key_at(a), new.key_at(b)));
        }
        // Level.
        assert forall|p: int| 0 <= p < new.n() implies 1 <= #[trigger] new.height_at(p) <= new.level by {
            let _ = new.key_at(p);
            if p < q {
                assert(1 <= old.height_at(p) <= old.level);
            } else if p > q {
                assert(1 <= old.height_at(p - 1) <= old.level);
            }
        }
        if new.level > 1 {
            if h > old.level {
                assert(upos[h - 1] == -1);
            }
        }
        assert(new.wf());
        // The map and the levels.
        old.lemma_view();
        new.lemma_view();
        assert forall|k: K| new@.contains_key(k) <==> old@.insert(key, value).contains_key(k) by {
            if new@.contains_key(k) {
                let p = choose|p: int| 0 <= p < new.n() && new.key_at(p) == k;
                if p < q {
                    assert(old.key_at(p) == k);
                } else if p > q {
                    assert(old.key_at(p - 1) == k);
                }
            }
            if old@.contains_key(k) {
                let p = choose|p: int| 0 <= p < old.n() && old.key_at(p) == k;
                if p < q {
                    assert(new.key_at(p) == k);
                } else {
                    assert(new.key_at(p + 1) == k);
                }
            }
            if k == key {
                assert(new.key_at(q) == k);
            }
        }
        assert forall|k: K| #[trigger] new@.contains_key(k) implies new@[k] == old@.insert(key, value)[k]
            && new.heights()[k] == old.heights().insert(key, h as nat)[k] by {
            let p = choose|p: int| 0 <= p < new.n() && new.key_at(p) == k;
            if p < q {
                assert(old.key_at(p) == k);
            } else if p > q {
                assert(old.key_at(p - 1) == k);
            }
        }
        assert(new@ =~= old@.insert(key, value));
        assert(new.heights() =~= old.heights().insert(key, h as nat));
    }
}

impl<K: Ord, V> SkipList<K, V> {
    /// The lane successors, below level `h`, of the nodes that `update`
    /// records: the links a node inserted after them takes over.
    fn successors(&self, update: &Vec<Option<usize>>, Ghost(key): Ghost<K>, Ghost(upos): Ghost<Seq<int>>, h: usize)
        -> (r: Vec<Option<usize>>)
        requires
            self.wf(),
            self.preds_ok(key, update@, upos),
            h <= MAX_LEVEL,
        ensures
            r@.len() == h,
            forall|j: int| 0 <= j < h ==> #[trigger] r@[j] == self.link(upos[j], j),
    {
        let mut forward: Vec<Option<usize>> = Vec::new();
        let mut l: usize = 0;
        while l < h
            invariant
                self.wf(),
                self.preds_ok(key, update@, upos),
                h <= MAX_LEVEL,
                l <= h,
                forward@.len() == l,
                forall|j: int| 0 <= j < l ==> #[trigger] forward@[j] == self.link(upos[j], j),
            decreases h - l,
        {
            assert(0 <= l < MAX_LEVEL);
            let next = self.read_link(update[l], l, Ghost(upos[l as int]));
            forward.push(next);
            l += 1;
        }
        forward
    }

    /// Links a new node for the absent `key`, of level `h`, after the
    /// nodes that `update` records.
    #[verifier::spinoff_prover]
    fn link_new(
        &mut self,
        key: K,
        value: V,
        h: usize,
        update: &Vec<Option<usize>>,
        Ghost(upos): Ghost<Seq<int>>,
    )
        requires
            old(self).wf(),
            old(self).sorted(),
            total_key_order::<K>(),
            old(self).preds_ok(key, update@, upos),
            upos[0] + 1 < old(self).n() ==> !key_eq(old(self).key_at(upos[0] + 1), key),
            1 <= h <= MAX_LEVEL,
        ensures
            final(self).wf(),
            final(self).sorted(),
            final(self)@ == old(self)@.insert(key, value),
            final(self).heights() == old(self).heights().insert(key, h as nat),
            final(self).spec_level() == if old(self).spec_level() < h {
                h as nat
            } else {
                old(self).spec_level()
            },
    {
        let ghost start = *self;
        let ghost q = upos[0] + 1;
        let ghost gkey = key;
        let ghost gvalue = value;
        let forward = self.successors(update, Ghost(key), Ghost(upos), h);
        let node = Box::new(Node { key, value, head: NodeHead { forward } });
        if h > self.level {
            self.level = h;
        }
        let f: usize = match self.free.pop() {
            Some(f) => {
                proof {
                    assert(start.free@[start.free@.len() - 1] == f);
                    if start.order@.contains(f) {
                        let p = choose|p: int| 0 <= p < start.n() && start.order@[p] == f;
                        assert(start.nodes@[start.order@[p] as int] is Some);
                    }
                }
                self.nodes.set(f, Some(node));
                f
            },
            None => {
                proof {
                    if start.order@.contains(self.nodes@.len() as usize) {
                        let p = choose|p: int| 0 <= p < start.n() && start.order@[p] == self.nodes@.len();
                        assert(start.order@[p] < start.nodes@.len());
                    }
                }
                self.nodes.push(Some(node));
                self.nodes.len() - 1
            },
        };
        proof {
            self.order@ = self.order@.insert(q, f);
            assert forall|k: int| 0 <= k < self.free@.len() implies #[trigger] self.free@[k]
                < self.nodes@.len() && self.nodes@[self.free@[k] as int] is None by {
                assert(self.free@[k] == start.free@[k]);
                assert(start.free@[k] != f);
            }
            assert forall|p: int| 0 <= p < self.n() implies #[trigger] self.order@[p]
                < self.nodes@.len() && self.nodes@[self.order@[p] as int] is Some by {
                if p < q {
                    assert(self.order@[p] == start.order@[p]);
                } else if p > q {
                    assert(self.order@[p] == start.order@[p - 1]);
                }
            }
            assert(self.order@.no_duplicates()) by {
                assert forall|a: int, b: int| 0 <= a < b < self.n() implies self.order@[a]
                    != self.order@[b] by {
                    assert(self.nodes@[self.order@[a] as int] is Some);
                    if a != q && b != q {
                        let oa = if a < q { a } else { a - 1 };
                        let ob = if b < q { b } else { b - 1 };
                        assert(self.order@[a] == start.order@[oa]);
                        assert(self.order@[b] == start.order@[ob]);
                    } else if a == q {
                        let ob = if b < q { b } else { b - 1 };
                        assert(self.order@[b] == start.order@[ob]);
                        assert(start.nodes@[start.order@[ob] as int] is Some);
                    } else {
                        let oa = if a < q { a } else { a - 1 };
                        assert(self.order@[a] == start.order@[oa]);
                        assert(start.nodes@[start.order@[oa] as int] is Some);
                    }
                }
            }
            assert forall|p: int| 0 <= p < start.n() implies start.order@[p] != f by {
                assert(start.nodes@[start.order@[p] as int] is Some);
            }
        }
        proof {
            assert(self.nodes.len() <= usize::MAX);
        }
        self.len = self.len + 1;
        let mut l: usize = 0;
        while l < h
            invariant
                start.wf(),
                start.preds_ok(gkey, update@, upos),
                q == upos[0] + 1,
                1 <= h <= MAX_LEVEL,
                l <= h,
                self.len == start.len + 1,
                self.inserted(start, gkey, gvalue, q, f, upos, h as int, l as int),
                forall|p: int| 0 <= p < start.n() ==> start.order@[p] != f,
            decreases h - l,
        {
            assert(0 <= l < MAX_LEVEL);
            let ghost u = upos[l as int];
            proof {
                if u >= 0 {
                    assert(start.order@[u] < start.nodes@.len());
                    assert(self.order@[u] == start.order@[u]);
                }
            }
            let ghost before = *self;
            self.set_link(update[l], l, Some(f));
            proof {
                if u >= 0 {
                    assert(start.order@[u] != f);
                }
                assert(before.order@[q] == f);
                assert(f < before.nodes@.len());
                assert(self.nodes@[f as int] == before.nodes@[f as int]);
                assert forall|p: int| 0 <= p < start.n() implies {
                    &&& self.node(#[trigger] start.order@[p] as int).key == start.node(
                        start.order@[p] as int,
                    ).key
                    &&& self.node(start.order@[p] as int).value == start.node(
                        start.order@[p] as int,
                    ).value
                    &&& self.fwd(start.order@[p] as int).len() == start.fwd(
                        start.order@[p] as int,
                    ).len()
                    &&& forall|j: int|
                        0 <= j < start.fwd(start.order@[p] as int).len() ==> #[trigger] self.fwd(
                            start.order@[p] as int,
                        )[j] == if j < l + 1 && upos[j] == p {
                            Some(f)
                        } else {
                            start.fwd(start.order@[p] as int)[j]
                        }
                } by {
                    let id = start.order@[p] as int;
                    assert(before.fwd(id).len() == start.fwd(id).len());
                    if u >= 0 && p != u {
                        assert(start.order@[p] != start.order@[u]);
                        let p2 = if p < q { p } else { p + 1 };
                        assert(before.order@[p2] == start.order@[p]);
                        assert(id < before.nodes@.len());
                        assert(self.nodes@[id] == before.nodes@[id]);
                    }
                    assert forall|j: int| 0 <= j < start.fwd(id).len() implies #[trigger] self.fwd(
                        id,
                    )[j] == if j < l + 1 && upos[j] == p {
                        Some(f)
                    } else {
                        start.fwd(id)[j]
                    } by {
                        assert(before.fwd(id)[j] == if j < l && upos[j] == p {
                            Some(f)
                        } else {
                            start.fwd(id)[j]
                        });
                    }
                }
            }
            l += 1;
        }
        proof {
            Self::lemma_inserted(*self, start, gkey, gvalue, f, update@, upos, h as int);
        }
    }
}

impl<K: Ord, V> SkipList<K, V> {
    /// Giving the node at position `q` a new value keeps the list well
    /// formed and sorted, and maps its key to that value.
    #[verifier::spinoff_prover]
    proof fn lemma_replaced(new: Self, old: Self, q: int, value: V)
        requires
            old.wf(),
            old.sorted(),
            0 <= q < old.n(),
            new.len == old.len,
            new.level == old.level,
            new.free@ == old.free@,
            new.order@ == old.order@,
            new.head == old.head,
            new.nodes@.len() == old.nodes@.len(),
            forall|i: int|
                0 <= i < new.nodes@.len() && i != old.order@[q] ==> new.nodes@[i] == old.nodes@[i],
            new.nodes@[old.order@[q] as int] is Some,
            new.node(old.order@[q] as int).key == old.node(old.order@[q] as int).key,
            new.node(old.order@[q] as int).value == value,
            new.fwd(old.order@[q] as int) == old.fwd(old.order@[q] as int),
        ensures
            new.wf(),
            new.sorted(),
            new@ == old@.insert(old.key_at(q), value),
            new.heights() == old.heights(),
    {
        assert forall|p: int| 0 <= p < new.n() implies {
            &&& #[trigger] new.key_at(p) == old.key_at(p)
            &&& new.height_at(p) == old.height_at(p)
            &&& new.value_at(p) == if p == q { value } else { old.value_at(p) }
            &&& new.nodes@[new.order@[p] as int] is Some
            &&& forall|l: int| 0 <= l < new.height_at(p) ==> #[trigger] new.link(p, l) == old.link(p, l)
        } by {
            if p != q {
                assert(old.order@[p] != old.order@[q]);
                assert(old.order@[p] < old.nodes@.len());
            }
        }
        assert(new.hs() =~= old.hs());
        assert forall|p: int, l: int|
            -1 <= p < new.n() && 0 <= l < new.height_at(p) implies #[trigger] new.link(p, l)
            == new.target(next_at(new.hs(), p, l)) by {
            if p >= 0 {
                let _ = new.key_at(p);
            }
            assert(old.link(p, l) == old.target(next_at(old.hs(), p, l)));
        }
        assert forall|p: int| 0 <= p < new.n() implies 1 <= #[trigger] new.height_at(p) <= new.level by {
            let _ = new.key_at(p);
        }
        assert forall|a: int, b: int| 0 <= a < b < new.n() implies #[trigger] new.key_at(a)
            != #[trigger] new.key_at(b) by {}
        assert forall|k: int| 0 <= k < new.free@.len() implies #[trigger] new.free@[k]
            < new.nodes@.len() && new.nodes@[new.free@[k] as int] is None by {
            let i = new.free@[k] as int;
            if i == old.order@[q] {
                assert(old.nodes@[old.order@[q] as int] is Some);
            }
        }
        assert(new.wf());
        old.lemma_view();
        new.lemma_view();
        let key = old.key_at(q);
        assert forall|k: K| new@.contains_key(k) <==> old@.insert(key, value).contains_key(k) by {
            if new@.contains_key(k) {
                let p = choose|p: int| 0 <= p < new.n() && new.key_at(p) == k;
                assert(old.key_at(p) == k);
            }
            if old@.contains_key(k) {
                let p = choose|p: int| 0 <= p < old.n() && old.key_at(p) == k;
                assert(new.key_at(p) == k);
            }
            if k == key {
                assert(new.key_at(q) == k);
            }
        }
        assert forall|k: K| #[trigger] new@.contains_key(k) implies new@[k] == old@.insert(key, value)[k]
            && new.heights()[k] == old.heights()[k] by {
            let p = choose|p: int| 0 <= p < new.n() && new.key_at(p) == k;
            assert(old.key_at(p) == k);
            if p != q {
                assert(old.key_at(p) != old.key_at(q)) by {
                    if p < q {
                    } else {
                    }
                }
            }
        }
        assert(new@ =~= old@.insert(key, value));
        assert(new.heights() =~= old.heights());
    }

    /// The slot of the node at position `upos[0] + 1` if it holds `key`.
    fn matching(&self, update: &Vec<Option<usize>>, key: &K, Ghost(upos): Ghost<Seq<int>>)
        -> (r: Option<usize>)
        requires
            self.wf(),
            self.sorted(),
            total_key_order::<K>(),
            self.preds_ok(*key, update@, upos),
        ensures
            match r {
                Some(id) => {
                    &&& upos[0] + 1 < self.n()
                    &&& key_eq(self.key_at(upos[0] + 1), *key)
                    &&& id == self.order@[upos[0] + 1]
                    &&& has_equal_key(self@, *key)
                    &&& stored_key(self@, *key) == self.key_at(upos[0] + 1)
                },
                None => {
                    &&& !has_equal_key(self@, *key)
                    &&& stored_key(self@, *key) == *key
                    &&& !self@.contains_key(*key)
                    &&& upos[0] + 1 < self.n() ==> !key_eq(self.key_at(upos[0] + 1), *key)
                },
            },
    {
        proof {
            lemma_key_order::<K>();
        }
        let ghost q = upos[0] + 1;
        proof {
            lemma_next_at(self.hs(), upos[0], 0);
            if q < self.n() {
                lemma_next_at_is(self.hs(), upos[0], 0, q);
            }
        }
        let candidate = self.read_link(update[0], 0, Ghost(upos[0]));
        match candidate {
            None => {
                proof {
                    self.lemma_absent(*key, q);
                }
                None
            },
            Some(id) => {
                if *self.key_ref(id, Ghost(q)) == *key {
                    proof {
                        self.lemma_equal_key(*key, q);
                    }
                    Some(id)
                } else {
                    proof {
                        self.lemma_absent(*key, q);
                    }
                    None
                }
            },
        }
    }

    /// Puts `value` in the node in slot `id`, at position `q`, and hands
    /// back the value it held; its key stays.
    fn replace_at(&mut self, id: usize, value: V, Ghost(q): Ghost<int>) -> (r: V)
        requires
            old(self).wf(),
            old(self).sorted(),
            0 <= q < old(self).n(),
            id == old(self).order@[q],
        ensures
            final(self).wf(),
            final(self).sorted(),
            final(self)@ == old(self)@.insert(old(self).key_at(q), value),
            final(self).heights() == old(self).heights(),
            final(self).spec_level() == old(self).spec_level(),
            r == old(self)@[old(self).key_at(q)],
    {
        let ghost start = *self;
        proof {
            start.lemma_view();
            assert(start.order@[q] < start.nodes@.len());
        }
        let old_value = self.replace_value(id, value);
        proof {
            Self::lemma_replaced(*self, start, q, value);
        }
        old_value
    }

    /// Maps `key` to `value`, giving a new node the level `level`, and
    /// returns the value `key` had. When a stored key compares equal to
    /// `key`, that stored key stays and only its value is replaced.
    pub fn insert_with_level(&mut self, key: K, value: V, level: usize) -> (r: Option<V>)
        requires
            old(self).wf(),
            old(self).sorted(),
            total_key_order::<K>(),
            1 <= level <= MAX_LEVEL,
        ensures
            final(self).wf(),
            final(self).sorted(),
            final(self)@ == old(self)@.insert(stored_key(old(self)@, key), value),
            match r {
                Some(v) => has_equal_key(old(self)@, key) && v == old(self)@[stored_key(
                    old(self)@,
                    key,
                )],
                None => !has_equal_key(old(self)@, key),
            },
            has_equal_key(old(self)@, key) ==> final(self).heights() == old(self).heights()
                && final(self).spec_level() == old(self).spec_level(),
            !has_equal_key(old(self)@, key) ==> final(self).heights() == old(self).heights().insert(
                key,
                level as nat,
            ) && final(self).spec_level() == if old(self).spec_level() < level {
                level as nat
            } else {
                old(self).spec_level()
            },
    {
        let (update, Ghost(upos)) = self.find_preds(&key);
        match self.matching(&update, &key, Ghost(upos)) {
            Some(id) => Some(self.replace_at(id, value, Ghost(upos[0] + 1))),
            None => {
                self.link_new(key, value, level, &update, Ghost(upos));
                None
            },
        }
    }

    /// Maps `key` to `value` and returns the value `key` had. When a stored
    /// key compares equal to `key`, that stored key stays and only its
    /// value is replaced; otherwise a new node of random level holds `key`.
    pub fn insert(&mut self, key: K, value: V) -> (r: Option<V>)
        requires
            old(self).wf(),
            old(self).sorted(),
            total_key_order::<K>(),
        ensures
            final(self).wf(),
            final(self).sorted(),
            final(self)@ == old(self)@.insert(stored_key(old(self)@, key), value),
            match r {
                Some(v) => has_equal_key(old(self)@, key) && v == old(self)@[stored_key(
                    old(self)@,
                    key,
                )],
                None => !has_equal_key(old(self)@, key),
            },
            has_equal_key(old(self)@, key) ==> final(self).heights() == old(self).heights()
                && final(self).spec_level() == old(self).spec_level(),
            !has_equal_key(old(self)@, key) ==> {
                let h = final(self).heights()[key];
                &&& 1 <= h <= MAX_LEVEL
                &&& final(self).heights() == old(self).heights().insert(key, h)
                &&& final(self).spec_level() == if old(self).spec_level() < h {
                    h
                } else {
                    old(self).spec_level()
                }
            },
    {
        let (update, Ghost(upos)) = self.find_preds(&key);
        match self.matching(&update, &key, Ghost(upos)) {
            Some(id) => Some(self.replace_at(id, value, Ghost(upos[0] + 1))),
            None => {
                let level = random_level();
                self.link_new(key, value, level, &update, Ghost(upos));
                None
            },
        }
    }
}

// Deletion.

impl<K, V> SkipList<K, V> {
    /// The lane-`l` link of the node that `from` names (the head for
    /// `None`).
    fn read_raw(&self, from: Option<usize>, l: usize) -> (r: Option<usize>)
        requires
            match from {
                None => l < self.head.forward@.len(),
                Some(id) => id < self.nodes@.len() && self.nodes@[id as int] is Some && l
                    < self.fwd(id as int).len(),
            },
        ensures
            r == match from {
                None => self.head.forward@[l as int],
                Some(id) => self.fwd(id as int)[l as int],
            },
    {
        match from {
            None => self.head.forward[l],
            Some(id) => match &self.nodes[id] {
                Some(b) => b.head.forward[l],
                None => None,
            },
        }
    }

    /// `self` is `old` with the lane links below `l` that `upos` records
    /// redirected to the links in `skip`.
    spec fn redirected(&self, old: Self, skip: Seq<Option<usize>>, upos: Seq<int>, l: int) -> bool {
        &&& self.order@ == old.order@
        &&& self.len == old.len
        &&& self.level == old.level
        &&& self.free@ == old.free@
        &&& self.nodes@.len() == old.nodes@.len()
        &&& forall|i: int|
            0 <= i < self.nodes@.len() ==> (#[trigger] self.nodes@[i] is Some) == (
            old.nodes@[i] is Some)
        &&& self.head.forward@.len() == MAX_LEVEL
        &&& forall|j: int|
            0 <= j < MAX_LEVEL ==> #[trigger] self.head.forward@[j] == if j < l && upos[j] == -1 {
                skip[j]
            } else {
                old.head.forward@[j]
            }
        &&& forall|p: int|
            0 <= p < old.n() ==> {
                &&& self.node(#[trigger] old.order@[p] as int).key == old.node(old.order@[p] as int).key
                &&& self.node(old.order@[p] as int).value == old.node(old.order@[p] as int).value
                &&& self.fwd(old.order@[p] as int).len() == old.fwd(old.order@[p] as int).len()
                &&& forall|j: int|
                    0 <= j < old.fwd(old.order@[p] as int).len() ==> #[trigger] self.fwd(
                        old.order@[p] as int,
                    )[j] == if j < l && upos[j] == p {
                        skip[j]
                    } else {
                        old.fwd(old.order@[p] as int)[j]
                    }
            }
    }
}

impl<K: Ord, V> SkipList<K, V> {
    /// With the lanes through the node at `q` closed over it and the node
    /// taken out, the list is well formed apart from its level, sorted,
    /// and its map lost that node's key.
    #[verifier::spinoff_prover]
    #[verifier::rlimit(40)]
    proof fn lemma_removed(
        new: Self,
        mid: Self,
        old: Self,
        query: K,
        key: K,
        upd: Seq<Option<usize>>,
        upos: Seq<int>,
    )
        requires
            old.wf(),
            old.sorted(),
            total_key_order::<K>(),
            old.preds_ok(query, upd, upos),
            upos[0] + 1 < old.n(),
            old.key_at(upos[0] + 1) == key,
            mid.redirected(
                old,
                old.fwd(old.order@[upos[0] + 1] as int),
                upos,
                old.height_at(upos[0] + 1) as int,
            ),
            new.order@ == old.order@.remove(upos[0] + 1),
            new.head == mid.head,
            new.level == old.level,
            new.len == old.len - 1,
            new.free@ == old.free@.push(old.order@[upos[0] + 1]),
            new.nodes@ == mid.nodes@.update(old.order@[upos[0] + 1] as int, None),
        ensures
            new.wf_base(),
            1 <= new.level <= MAX_LEVEL,
            forall|p: int| 0 <= p < new.n() ==> 1 <= #[trigger] new.height_at(p) <= new.level,
            new.sorted(),
            new@ == old@.remove(key),
            new.heights() == old.heights().remove(key),
    {
        lemma_key_order::<K>();
        let q = upos[0] + 1;
        let d = old.order@[q];
        let hd = old.height_at(q) as int;
        let ohs = old.hs();
        let nhs = new.hs();
        assert(d < old.nodes@.len());
        assert forall|p: int| 0 <= p < old.n() && p != q implies old.order@[p] != d by {}
        // Positions after `q` hold the nodes that were one place later.
        assert forall|p: int| 0 <= p < new.n() implies {
            &&& #[trigger] new.order@[p] == old.order@[if p < q { p } else { p + 1 }]
            &&& new.key_at(p) == old.key_at(if p < q { p } else { p + 1 })
            &&& new.value_at(p) == old.value_at(if p < q { p } else { p + 1 })
            &&& new.height_at(p) == old.height_at(if p < q { p } else { p + 1 })
            &&& new.order@[p] != d
            &&& new.order@[p] < new.nodes@.len()
        } by {
            let op = if p < q { p } else { p + 1 };
            assert(old.order@[op] < old.nodes@.len());
            assert(old.order@[op] != d);
        }
        assert(nhs =~= ohs.remove(q));
        assert forall|t: int| 0 <= t <= old.n() && t != q implies #[trigger] old.target(t)
            == new.target(if t < q { t } else { t - 1 }) by {}
        // Slots.
        assert forall|p: int| 0 <= p < new.n() implies #[trigger] new.order@[p] < new.nodes@.len()
            && new.nodes@[new.order@[p] as int] is Some by {
            let op = if p < q { p } else { p + 1 };
            assert(old.nodes@[old.order@[op] as int] is Some);
            assert(mid.nodes@[old.order@[op] as int] is Some);
        }
        assert forall|k: int| 0 <= k < new.free@.len() implies #[trigger] new.free@[k]
            < new.nodes@.len() && new.nodes@[new.free@[k] as int] is None by {
            if k < old.free@.len() {
                assert(old.nodes@[old.free@[k] as int] is None);
                assert(mid.nodes@[old.free@[k] as int] is None);
            }
        }
        assert(new.free@.no_duplicates()) by {
            assert forall|a: int, b: int| 0 <= a < b < new.free@.len() implies new.free@[a]
                != new.free@[b] by {
                if b == old.free@.len() {
                    assert(old.nodes@[old.free@[a] as int] is None);
                }
            }
        }
        assert(new.order@.no_duplicates()) by {
            assert forall|a: int, b: int| 0 <= a < b < new.n() implies new.order@[a]
                != new.order@[b] by {
                let oa = if a < q { a } else { a + 1 };
                let ob = if b < q { b } else { b + 1 };
                assert(old.order@[oa] != old.order@[ob]);
            }
        }
        assert(new.wf_slots());
        // Lane links.
        assert forall|p2: int, l: int|
            -1 <= p2 < new.n() && 0 <= l < new.height_at(p2) implies #[trigger] new.link(p2, l)
            == new.target(next_at(nhs, p2, l)) by {
            let p = if p2 < q { p2 } else { p2 + 1 };
            assert(0 <= l < MAX_LEVEL);
            lemma_next_at(ohs, p, l);
            let t = next_at(ohs, p, l);
            lemma_next_at_remove(ohs, q, p, l);
            lemma_next_at(ohs, q, l);
            assert(old.height_at(p) > l);
            if p >= 0 {
                assert(new.order@[p2] == old.order@[p]);
                assert(new.nodes@[old.order@[p] as int] == mid.nodes@[old.order@[p] as int]);
                assert(new.link(p2, l) == mid.fwd(old.order@[p] as int)[l]);
            }
            let u = upos[l];
            lemma_next_at(ohs, u, l);
            if l < hd {
                assert forall|k: int| u < k < q implies ohs[k] <= l by {}
                lemma_next_at_is(ohs, u, l, q);
            }
            if l < hd && u == p {
                assert(new.link(p2, l) == old.fwd(d as int)[l]);
                assert(old.link(q, l) == old.target(next_at(ohs, q, l)));
            } else {
                assert(new.link(p2, l) == old.link(p, l));
                if t == q {
                    if l < hd {
                        if p < u {
                            assert(ohs[u] <= l);
                        } else {
                            assert(ohs[p] <= l);
                        }
                    }
                }
            }
        }
        // Order and distinctness.
        assert forall|a: int, b: int| 0 <= a < b < new.n() implies key_lt(
            #[trigger] new.key_at(a),
            #[trigger] new.key_at(b),
        ) by {
            let oa = if a < q { a } else { a + 1 };
            let ob = if b < q { b } else { b + 1 };
            assert(key_lt(old.key_at(oa), old.key_at(ob)));
        }
        assert forall|a: int, b: int| 0 <= a < b < new.n() implies #[trigger] new.key_at(a)
            != #[trigger] new.key_at(b) by {
            assert(key_lt(new.key_at(a), new.key_at(b)));
        }
        assert forall|p: int| 0 <= p < new.n() implies 1 <= #[trigger] new.height_at(p) <= new.level by {
            let _ = new.order@[p];
            let op = if p < q { p } else { p + 1 };
            assert(1 <= old.height_at(op) <= old.level);
        }
        assert(new.wf_base());
        // The map and the levels.
        old.lemma_view();
        new.lemma_view_base();
        assert forall|k: K| new@.contains_key(k) <==> old@.remove(key).contains_key(k) by {
            if new@.contains_key(k) {
                let p = choose|p: int| 0 <= p < new.n() && new.key_at(p) == k;
                let _ = new.order@[p];
                let op = if p < q { p } else { p + 1 };
                assert(old.key_at(op) == k);
                assert(old.key_at(op) != old.key_at(q)) by {
                    if op < q {
                    } else {
                    }
                }
            }
            if old@.contains_key(k) && k != key {
                let p = choose|p: int| 0 <= p < old.n() && old.key_at(p) == k;
                assert(p != q);
                let p2 = if p < q { p } else { p - 1 };
                let _ = new.order@[p2];
                assert(new.key_at(p2) == k);
            }
        }
        assert forall|k: K| #[trigger] new@.contains_key(k) implies new@[k] == old@.remove(key)[k]
            && new.heights()[k] == old.heights().remove(key)[k] by {
            let p = choose|p: int| 0 <= p < new.n() && new.key_at(p) == k;
            let _ = new.order@[p];
            let op = if p < q { p } else { p + 1 };
            assert(old.key_at(op) == k);
        }
        assert(new@ =~= old@.remove(key));
        assert(new.heights() =~= old.heights().remove(key));
    }
}

impl<K: Ord, V> SkipList<K, V> {
    /// Closes every lane over the node in slot `d`, which holds `key`, takes
    /// the node out and hands back its value.
    #[verifier::spinoff_prover]
    fn unlink(
        &mut self,
        d: usize,
        update: &Vec<Option<usize>>,
        Ghost(query): Ghost<K>,
        Ghost(key): Ghost<K>,
        Ghost(upos): Ghost<Seq<int>>,
    ) -> (r: V)
        requires
            old(self).wf(),
            old(self).sorted(),
            total_key_order::<K>(),
            old(self).preds_ok(query, update@, upos),
            upos[0] + 1 < old(self).n(),
            old(self).key_at(upos[0] + 1) == key,
            d == old(self).order@[upos[0] + 1],
        ensures
            final(self).wf(),
            final(self).sorted(),
            final(self)@ == old(self)@.remove(key),
            final(self).heights() == old(self).heights().remove(key),
            r == old(self)@[key],
    {
        let ghost start = *self;
        let ghost q = upos[0] + 1;
        let ghost hd = start.height_at(q) as int;
        let ghost skip = start.fwd(d as int);
        proof {
            assert(d < start.nodes@.len());
            assert forall|p: int| 0 <= p < start.n() && p != q implies start.order@[p] != d by {}
        }
        let top = self.level;
        let mut l: usize = 0;
        while l < top
            invariant
                start.wf(),
                start.preds_ok(query, update@, upos),
                q == upos[0] + 1,
                0 <= q < start.n(),
                d == start.order@[q],
                d < start.nodes@.len(),
                hd == start.height_at(q),
                skip == start.fwd(d as int),
                top == start.level,
                forall|p: int| 0 <= p < start.n() && p != q ==> start.order@[p] != d,
                l <= hd,
                self.redirected(start, skip, upos, l as int),
            ensures
                l == hd,
                self.redirected(start, skip, upos, hd),
            decreases top - l,
        {
            assert(0 <= l < MAX_LEVEL);
            let ghost u = upos[l as int];
            proof {
                lemma_next_at(start.hs(), u, l as int);
                if l < hd {
                    assert forall|k: int| u < k < q implies start.hs()[k] <= l by {}
                    lemma_next_at_is(start.hs(), u, l as int, q);
                }
                if u >= 0 {
                    assert(start.order@[u] < start.nodes@.len());
                    assert(self.nodes@[start.order@[u] as int] is Some);
                    assert(u != q);
                }
            }
            let link = self.read_raw(update[l], l);
            proof {
                assert(link == start.link(u, l as int));
                let t = next_at(start.hs(), u, l as int);
                if link == Some(d) && t != q {
                    assert(start.order@[t] != start.order@[q]);
                }
            }
            let hit = match link {
                Some(x) => x == d,
                None => false,
            };
            if !hit {
                break;
            }
            proof {
                assert(self.nodes@[d as int] is Some);
            }
            let next = self.read_raw(Some(d), l);
            let ghost before = *self;
            self.set_link(update[l], l, next);
            proof {
                assert forall|p: int| 0 <= p < start.n() implies {
                    &&& self.node(#[trigger] start.order@[p] as int).key == start.node(
                        start.order@[p] as int,
                    ).key
                    &&& self.node(start.order@[p] as int).value == start.node(
                        start.order@[p] as int,
                    ).value
                    &&& self.fwd(start.order@[p] as int).len() == start.fwd(
                        start.order@[p] as int,
                    ).len()
                    &&& forall|j: int|
                        0 <= j < start.fwd(start.order@[p] as int).len() ==> #[trigger] self.fwd(
                            start.order@[p] as int,
                        )[j] == if j < l + 1 && upos[j] == p {
                            skip[j]
                        } else {
                            start.fwd(start.order@[p] as int)[j]
                        }
                } by {
                    let id = start.order@[p] as int;
                    assert(id < start.nodes@.len());
                    assert(before.fwd(id).len() == start.fwd(id).len());
                    if u >= 0 && p != u {
                        assert(start.order@[p] != start.order@[u]);
                        assert(self.nodes@[id] == before.nodes@[id]);
                    }
                    assert forall|j: int| 0 <= j < start.fwd(id).len() implies #[trigger] self.fwd(
                        id,
                    )[j] == if j < l + 1 && upos[j] == p {
                        skip[j]
                    } else {
                        start.fwd(id)[j]
                    } by {
                        assert(before.fwd(id)[j] == if j < l && upos[j] == p {
                            skip[j]
                        } else {
                            start.fwd(id)[j]
                        });
                    }
                }
                assert forall|i: int| 0 <= i < self.nodes@.len() implies (
                #[trigger] self.nodes@[i] is Some) == (start.nodes@[i] is Some) by {
                    assert((before.nodes@[i] is Some) == (start.nodes@[i] is Some));
                }
            }
            l += 1;
        }
        let ghost mid = *self;
        self.nodes.push(None);
        let slot = self.nodes.swap_remove(d);
        self.free.push(d);
        self.len = self.len - 1;
        proof {
            self.order@ = self.order@.remove(q);
            assert(self.nodes@ =~= mid.nodes@.update(d as int, None));
            assert(mid.nodes@[d as int] is Some);
            Self::lemma_removed(*self, mid, start, query, key, update@, upos);
        }
        let ghost after = *self;
        while self.level > 1 && self.head.forward[self.level - 1].is_none()
            invariant
                self.order == after.order,
                self.nodes == after.nodes,
                self.head == after.head,
                self.free == after.free,
                self.len == after.len,
                after.wf_base(),
                after.sorted(),
                self.wf_base(),
                1 <= self.level <= MAX_LEVEL,
                forall|p: int| 0 <= p < self.n() ==> 1 <= #[trigger] self.height_at(p) <= self.level,
            decreases self.level,
        {
            proof {
                let top_lane = self.level - 1;
                lemma_next_at(self.hs(), -1, top_lane as int);
                assert(self.link(-1, top_lane as int) == self.target(
                    next_at(self.hs(), -1, top_lane as int),
                ));
                assert forall|p: int| 0 <= p < self.n() implies #[trigger] self.height_at(p)
                    <= top_lane by {
                    assert(self.hs()[p] == self.height_at(p));
                }
            }
            let ghost pre = *self;
            self.level = self.level - 1;
            proof {
                Self::lemma_same_content(*self, pre);
                assert forall|p: int| 0 <= p < self.n() implies 1 <= #[trigger] self.height_at(p)
                    <= self.level by {
                    assert(1 <= pre.height_at(p) <= self.level);
                }
            }
        }
        let node = slot.unwrap();
        proof {
            start.lemma_view();
            Self::lemma_same_content(*self, after);
        }
        node.value
    }

    /// Removes the stored key that compares equal to `key`, if there is
    /// one, and returns its value.
    pub fn delete(&mut self, key: &K) -> (r: Option<V>)
        requires
            old(self).wf(),
            old(self).sorted(),
            total_key_order::<K>(),
        ensures
            final(self).wf(),
            final(self).sorted(),
            final(self)@ == old(self)@.remove(stored_key(old(self)@, *key)),
            final(self).heights() == old(self).heights().remove(stored_key(old(self)@, *key)),
            is_level_of(final(self).heights(), final(self).spec_level()),
            match r {
                Some(v) => has_equal_key(old(self)@, *key) && v == old(self)@[stored_key(
                    old(self)@,
                    *key,
                )],
                None => !has_equal_key(old(self)@, *key),
            },
    {
        let (update, Ghost(upos)) = self.find_preds(key);
        let r = match self.matching(&update, key, Ghost(upos)) {
            Some(d) => Some(
                self.unlink(d, &update, Ghost(*key), Ghost(stored_key(self@, *key)), Ghost(upos)),
            ),
            None => {
                proof {
                    self.lemma_view();
                    assert(self@.remove(*key) =~= self@);
                    assert(self.heights().remove(*key) =~= self.heights());
                }
                None
            },
        };
        proof {
            self.lemma_wf();
        }
        r
    }
}

impl<K: Ord, V> SkipList<K, V> {
    /// Two lists with the same nodes, links and arena agree on everything
    /// but their level.
    proof fn lemma_same_content(a: Self, b: Self)
        requires
            a.order == b.order,
            a.nodes == b.nodes,
            a.head == b.head,
            a.free == b.free,
            a.len == b.len,
            b.wf_base(),
        ensures
            a.hs() == b.hs(),
            a@ == b@,
            a.heights() == b.heights(),
            a.wf_base(),
            b.sorted() ==> a.sorted(),
    {
        assert(a.hs() =~= b.hs());
        assert forall|p: int| #[trigger] a.key_at(p) == b.key_at(p) by {}
        assert forall|p: int| #[trigger] a.height_at(p) == b.height_at(p) by {}
        assert forall|p: int| #[trigger] a.value_at(p) == b.value_at(p) by {}
        assert forall|p: int, l: int| #[trigger] a.link(p, l) == b.link(p, l) by {}
        assert forall|p: int, l: int|
            -1 <= p < a.n() && 0 <= l < a.height_at(p) implies #[trigger] a.link(p, l) == a.target(
                next_at(a.hs(), p, l),
            ) by {
            assert(b.link(p, l) == b.target(next_at(b.hs(), p, l)));
        }
        assert forall|p: int, q: int| 0 <= p < q < a.n() implies #[trigger] a.key_at(p)
            != #[trigger] a.key_at(q) by {
            assert(b.key_at(p) != b.key_at(q));
        }
        assert(a.wf_base());
        if b.sorted() {
            assert forall|p: int, q: int| 0 <= p < q < a.n() implies key_lt(
                #[trigger] a.key_at(p),
                #[trigger] a.key_at(q),
            ) by {
                assert(key_lt(b.key_at(p), b.key_at(q)));
            }
        }
        assert forall|k: K| a@.contains_key(k) == b@.contains_key(k) by {
            if a@.contains_key(k) {
                let p = choose|p: int| 0 <= p < a.n() && a.key_at(p) == k;
                assert(b.key_at(p) == k);
            }
            if b@.contains_key(k) {
                let p = choose|p: int| 0 <= p < b.n() && b.key_at(p) == k;
                assert(a.key_at(p) == k);
            }
        }
        assert forall|k: K| #[trigger] a@.contains_key(k) implies a@[k] == b@[k] && a.heights()[k]
            == b.heights()[k] by {
            let p = choose|p: int| 0 <= p < a.n() && a.key_at(p) == k;
            assert(b.key_at(p) == k);
            let pb = choose|p: int| 0 <= p < b.n() && b.key_at(p) == k;
            if p < pb {
                assert(b.key_at(p) != b.key_at(pb));
            } else if pb < p {
                assert(b.key_at(pb) != b.key_at(p));
            }
        }
        assert(a@.dom() =~= b@.dom());
        assert(a.heights().dom() =~= b.heights().dom());
        assert(a@ =~= b@);
        assert(a.heights() =~= b.heights());
    }
}

} // verus!
