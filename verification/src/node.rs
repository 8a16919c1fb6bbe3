//! The nodes of a skip list: a key, a value and one forward link per lane.
//!
//! A link names the slot that holds the next node of its lane, or is
//! `None` at the end of the lane.

use vstd::prelude::*;
use vstd::layout::{size_of, align_of, layout_for_type_is_valid};
use crate::height::MAX_LEVEL;
use crate::layout::{
    Layout, LayoutError, extend_spec, array_spec, padding, lemma_padding, lemma_pow2_divides,
};
use vstd::arithmetic::power2::is_pow2;

verus! {

/// The forward links of a node, one per lane it takes part in; the
/// number of links is the node's level.
pub struct NodeHead {
    pub forward: Vec<Option<usize>>,
}

/// A key-value entry together with its forward links.
pub struct Node<K, V> {
    pub key: K,
    pub value: V,
    pub head: NodeHead,
}

/// `levels` links, each at the end of its lane.
pub open spec fn unlinked(levels: nat) -> Seq<Option<usize>> {
    Seq::new(levels, |i: int| None::<usize>)
}

/// The `#[repr(C)]` record of a node stored in one allocation: its key,
/// its value and its level count, padded to its alignment, as
/// `(size, align)`.
pub open spec fn record_spec<K, V>() -> Option<(int, int)> {
    match extend_spec(
        (size_of::<K>() as int, align_of::<K>() as int),
        (size_of::<V>() as int, align_of::<V>() as int),
    ) {
        None => None,
        Some((s1, a1, _)) => match extend_spec(
            (s1, a1),
            (size_of::<usize>() as int, align_of::<usize>() as int),
        ) {
            None => None,
            Some((s2, a2, _)) => Some((s2 + padding(s2, a2), a2)),
        },
    }
}

/// The alignment of a node's record: the largest of those of its key, its
/// value and its level count.
pub open spec fn record_align<K, V>() -> int {
    let a = if align_of::<K>() < align_of::<V>() {
        align_of::<V>() as int
    } else {
        align_of::<K>() as int
    };
    if a < align_of::<usize>() {
        align_of::<usize>() as int
    } else {
        a
    }
}

/// The layout of a node stored in one allocation, as `(size, align,
/// offset)`: the record, then `levels` link words starting at `offset`,
/// the whole padded to its alignment.
pub open spec fn node_layout_spec<K, V>(levels: int) -> Option<(int, int, int)> {
    match record_spec::<K, V>() {
        None => None,
        Some(record) => match array_spec(
            size_of::<usize>() as int,
            align_of::<usize>() as int,
            levels,
        ) {
            None => None,
            Some(links) => match extend_spec(record, links) {
                None => None,
                Some((s, a, offset)) => Some((s + padding(s, a), a, offset)),
            },
        },
    }
}

/// The layout of a head stored in one allocation, as `(size, align,
/// offset)`: its level count, then `levels` link words starting at
/// `offset`, the whole padded to its alignment.
pub open spec fn head_layout_spec(levels: int) -> Option<(int, int, int)> {
    match array_spec(size_of::<usize>() as int, align_of::<usize>() as int, levels) {
        None => None,
        Some(links) => match extend_spec(
            (size_of::<usize>() as int, align_of::<usize>() as int),
            links,
        ) {
            None => None,
            Some((s, a, offset)) => Some((s + padding(s, a), a, offset)),
        },
    }
}

impl NodeHead {
    /// A head with `levels` links, each at the end of its lane; an error
    /// when a head with that many links would not fit in memory.
    pub fn new(levels: usize) -> (r: Result<NodeHead, LayoutError>)
        ensures
            match r {
                Ok(h) => head_layout_spec(levels as int) is Some && h.forward@ == unlinked(
                    levels as nat,
                ),
                Err(_) => head_layout_spec(levels as int) is None,
            },
    {
        match NodeHead::layout(levels) {
            Ok(_) => {},
            Err(e) => return Err(e),
        }
        let mut forward: Vec<Option<usize>> = Vec::new();
        let mut i: usize = 0;
        while i < levels
            invariant
                i <= levels,
                forward@ == unlinked(i as nat),
            decreases levels - i,
        {
            forward.push(None);
            i += 1;
            assert(forward@ =~= unlinked(i as nat));
        }
        Ok(NodeHead { forward })
    }

    /// The layout of a head with `levels` links stored in one allocation,
    /// and the offset of its first link.
    pub fn layout(levels: usize) -> (r: Result<(Layout, usize), LayoutError>)
        ensures
            match r {
                Ok((l, offset)) => head_layout_spec(levels as int) == Some(
                    (l.bytes(), l.alignment(), offset as int),
                ),
                Err(_) => head_layout_spec(levels as int) is None,
            },
    {
        let links = match Layout::array::<usize>(levels) {
            Ok(l) => l,
            Err(e) => return Err(e),
        };
        let (head, offset) = match Layout::new::<usize>().extend(links) {
            Ok(p) => p,
            Err(e) => return Err(e),
        };
        Ok((head.pad_to_align(), offset))
    }

    /// A head of `MAX_LEVEL` links fits in memory.
    pub(crate) fn sentinel_fits()
        ensures
            head_layout_spec(MAX_LEVEL as int) is Some,
    {
        layout_for_type_is_valid::<usize>();
        proof {
            broadcast use vstd::layout::layout_of_primitives;

            let w = size_of::<usize>() as int;
            let a = align_of::<usize>() as int;
            assert(w == 4 || w == 8);
            assert(a <= w) by (nonlinear_arith)
                requires
                    w % a == 0,
                    a > 0,
                    w > 0,
            {
                let k = w / a;
                assert(w == a * k);
                assert(k >= 1);
            }
            assert(padding(w, a) == 0);
        }
    }
}

impl<K, V> Node<K, V> {
    /// A node holding `key` and `value` with `levels` links, each at the
    /// end of its lane.
    pub fn new(key: K, value: V, levels: usize) -> (n: Box<Self>)
        requires
            levels > 0,
        ensures
            n.key == key,
            n.value == value,
            n.head.forward@ == unlinked(levels as nat),
    {
        let mut forward: Vec<Option<usize>> = Vec::new();
        let mut i: usize = 0;
        while i < levels
            invariant
                i <= levels,
                forward@ == unlinked(i as nat),
            decreases levels - i,
        {
            forward.push(None);
            i += 1;
            assert(forward@ =~= unlinked(i as nat));
        }
        Box::new(Node { key, value, head: NodeHead { forward } })
    }

    /// The layout of a node with `levels` links stored in one allocation,
    /// and the offset of its first link.
    pub fn layout(levels: usize) -> (r: Result<(Layout, usize), LayoutError>)
        ensures
            match r {
                Ok((l, offset)) => {
                    &&& node_layout_spec::<K, V>(levels as int) == Some(
                        (l.bytes(), l.alignment(), offset as int),
                    )
                    &&& l.bytes() % l.alignment() == 0
                    &&& (offset as int) % (align_of::<usize>() as int) == 0
                    &&& offset + size_of::<usize>() * levels <= l.bytes()
                    &&& l.alignment() == record_align::<K, V>()
                    &&& (offset as int) % record_align::<K, V>() == 0
                    &&& offset >= size_of::<K>() + size_of::<V>() + size_of::<usize>()
                },
                Err(_) => node_layout_spec::<K, V>(levels as int) is None,
            },
    {
        let key = Layout::new::<K>();
        let value = Layout::new::<V>();
        let (kv, _) = match key.extend(value) {
            Ok(p) => p,
            Err(e) => return Err(e),
        };
        let (with_level, _) = match kv.extend(Layout::new::<usize>()) {
            Ok(p) => p,
            Err(e) => return Err(e),
        };
        let record = with_level.pad_to_align();
        let links = match Layout::array::<usize>(levels) {
            Ok(l) => l,
            Err(e) => return Err(e),
        };
        let (node, offset) = match record.extend(links) {
            Ok(p) => p,
            Err(e) => return Err(e),
        };
        layout_for_type_is_valid::<K>();
        layout_for_type_is_valid::<V>();
        layout_for_type_is_valid::<usize>();
        proof {
            lemma_padding(record.bytes(), align_of::<usize>() as int);
            lemma_padding(with_level.bytes(), with_level.alignment());
            let ra = record.alignment();
            let ua = align_of::<usize>() as int;
            assert(ra == record_align::<K, V>());
            assert(is_pow2(ra));
            lemma_pow2_divides(ua, ra);
            let rb = record.bytes();
            assert(rb % ua == 0) by (nonlinear_arith)
                requires
                    rb % ra == 0,
                    ra % ua == 0,
                    ra > 0,
                    ua > 0,
                    rb >= 0,
            {
                let i = rb / ra;
                let j = ra / ua;
                assert(rb == ra * i);
                assert(ra == ua * j);
                assert(rb == ua * (j * i));
            }
            assert(padding(rb, ua) == 0);
        }
        Ok((node.pad_to_align(), offset))
    }
}

} // verus!
