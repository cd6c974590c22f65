use vstd::prelude::*;

use crate::hash::{hash_internal, placeholder_hash, internal_combine, placeholder_bytes, HashValue};
use crate::nibble::{Nibble, MAX_NIBBLES};
use crate::node_key::{NodeKey, Version};

verus! {

/// The number of slots of an internal node, one per nibble value.
pub const NUM_SLOTS: usize = 16;

/// What an internal node records of one child.
#[derive(Clone, Copy, Debug, PartialEq, Eq)]
pub struct Child {
    pub hash: HashValue,
    pub version: Version,
    pub is_leaf: bool,
}

impl Child {
    pub fn new(hash: HashValue, version: Version, is_leaf: bool) -> (r: Child)
        ensures
            r == (Child { hash, version, is_leaf }),
    {
        Child { hash, version, is_leaf }
    }
}

/// The children of an internal node, indexed by nibble.
#[derive(Clone, Copy, Debug, PartialEq, Eq)]
pub struct Children {
    pub slots: [Option<Child>; 16],
}

impl Children {
    pub open spec fn slot(&self, i: int) -> Option<Child> {
        self.slots@[i]
    }

    /// Puts `child` at nibble `n`, in place of what was there, which is returned.
    pub fn insert(&mut self, n: Nibble, child: Child) -> (r: Option<Child>)
        ensures
            final(self).slots@ == old(self).slots@.update(n@ as int, Some(child)),
            r == old(self).slots@[n@ as int],
    {
        let i = n.value() as usize;
        let prev = self.slots[i];
        self.slots[i] = Some(child);
        prev
    }

    pub fn get(&self, n: Nibble) -> (r: Option<Child>)
        ensures
            r == self.slots@[n@ as int],
    {
        let i = n.value() as usize;
        self.slots[i]
    }

    pub fn num_children(&self) -> (r: usize)
        ensures
            r == present_count(self.slots@, 0, 16),
    {
        count_range(&self.slots, 0, NUM_SLOTS)
    }
}

impl Default for Children {
    fn default() -> (r: Children)
        ensures
            forall|i: int| 0 <= i < 16 ==> r.slots@[i] is None,
    {
        Children { slots: [None; 16] }
    }
}

/// The number of present children among slots `lo .. hi`.
pub open spec fn present_count(s: Seq<Option<Child>>, lo: int, hi: int) -> nat
    decreases hi - lo,
{
    if hi <= lo {
        0
    } else {
        present_count(s, lo, hi - 1) + if s[hi - 1] is Some { 1nat } else { 0nat }
    }
}

/// The widths of the ranges of the implicit binary tree over the 16 slots.
pub open spec fn is_width(w: int) -> bool {
    w == 1 || w == 2 || w == 4 || w == 8 || w == 16
}

/// The slot of the present child in the range `lo .. lo + w`, for a range that
/// holds one: found by going down into the half that holds a child.
pub open spec fn only_child_index(s: Seq<Option<Child>>, lo: int, w: int) -> int
    decreases w,
{
    if w <= 1 {
        lo
    } else if present_count(s, lo, lo + w / 2) > 0 {
        only_child_index(s, lo, w / 2)
    } else {
        only_child_index(s, lo + w / 2, w / 2)
    }
}

/// The digest of the range `lo .. lo + w`: the placeholder when it is empty,
/// the child's own digest when it holds one child, and otherwise the
/// combination of its two halves.
pub open spec fn range_hash(s: Seq<Option<Child>>, lo: int, w: int) -> Seq<u8>
    decreases w,
{
    let c = present_count(s, lo, lo + w);
    if c == 0 {
        placeholder_bytes()
    } else if c == 1 || w < 2 {
        s[only_child_index(s, lo, w)]->Some_0.hash@
    } else {
        internal_combine(range_hash(s, lo, w / 2), range_hash(s, lo + w / 2, w / 2))
    }
}

/// Going down from the range `lo .. lo + w` toward slot `n`: the slot of the
/// child where the descent ends, if any, and the digests of the halves left
/// aside at each split, the topmost first.
pub open spec fn range_siblings(s: Seq<Option<Child>>, lo: int, w: int, n: int) -> (
    Option<int>,
    Seq<Seq<u8>>,
)
    decreases w,
{
    let c = present_count(s, lo, lo + w);
    if c == 0 {
        (None, Seq::empty())
    } else if c == 1 || w < 2 {
        (Some(only_child_index(s, lo, w)), Seq::empty())
    } else if n < lo + w / 2 {
        let below = range_siblings(s, lo, w / 2, n);
        (below.0, seq![range_hash(s, lo + w / 2, w / 2)] + below.1)
    } else {
        let below = range_siblings(s, lo + w / 2, w / 2, n);
        (below.0, seq![range_hash(s, lo, w / 2)] + below.1)
    }
}

pub proof fn lemma_count_split(s: Seq<Option<Child>>, lo: int, mid: int, hi: int)
    requires
        lo <= mid <= hi,
    ensures
        present_count(s, lo, hi) == present_count(s, lo, mid) + present_count(s, mid, hi),
    decreases hi - mid,
{
    if hi > mid {
        lemma_count_split(s, lo, mid, hi - 1);
    }
}

pub proof fn lemma_count_bound(s: Seq<Option<Child>>, lo: int, hi: int)
    requires
        lo <= hi,
    ensures
        present_count(s, lo, hi) <= hi - lo,
    decreases hi - lo,
{
    if hi > lo {
        lemma_count_bound(s, lo, hi - 1);
    }
}

/// A range that holds a child has its descent end on a present slot inside it.
pub proof fn lemma_only_child_present(s: Seq<Option<Child>>, lo: int, w: int)
    requires
        is_width(w),
        0 <= lo,
        present_count(s, lo, lo + w) > 0,
    ensures
        lo <= only_child_index(s, lo, w) < lo + w,
        s[only_child_index(s, lo, w)] is Some,
    decreases w,
{
    if w <= 1 {
        reveal_with_fuel(present_count, 2);
    } else {
        lemma_count_split(s, lo, lo + w / 2, lo + w);
        if present_count(s, lo, lo + w / 2) > 0 {
            lemma_only_child_present(s, lo, w / 2);
        } else {
            lemma_only_child_present(s, lo + w / 2, w / 2);
        }
    }
}

fn count_range(slots: &[Option<Child>; 16], lo: usize, hi: usize) -> (r: usize)
    requires
        lo <= hi <= NUM_SLOTS,
    ensures
        r == present_count(slots@, lo as int, hi as int),
{
    let mut c: usize = 0;
    let mut i: usize = lo;
    while i < hi
        invariant
            lo <= i <= hi <= NUM_SLOTS,
            c == present_count(slots@, lo as int, i as int),
            c <= i - lo,
        decreases hi - i,
    {
        if slots[i].is_some() {
            c = c + 1;
        }
        i = i + 1;
    }
    c
}

/// A node with up to 16 children, hashed as a binary tree of four levels in
/// which empty ranges are the placeholder and one-child ranges are that child.
#[derive(Clone, Copy, Debug, PartialEq, Eq)]
pub struct InternalNode {
    pub children: Children,
}

impl InternalNode {
    pub open spec fn slots(&self) -> Seq<Option<Child>> {
        self.children.slots@
    }

    /// The digest of the whole node.
    pub open spec fn spec_hash(&self) -> Seq<u8> {
        range_hash(self.slots(), 0, 16)
    }

    pub fn new(children: Children) -> (r: InternalNode)
        ensures
            r.children == children,
    {
        InternalNode { children }
    }

    pub fn set_child(&mut self, n: Nibble, child: Child)
        ensures
            final(self).slots() == old(self).slots().update(n@ as int, Some(child)),
    {
        self.children.insert(n, child);
    }

    pub fn child(&self, n: Nibble) -> (r: Option<Child>)
        ensures
            r == self.slots()[n@ as int],
    {
        self.children.get(n)
    }

    pub fn num_children(&self) -> (r: usize)
        ensures
            r == present_count(self.slots(), 0, 16),
    {
        self.children.num_children()
    }

    fn only_child(&self, lo: usize, w: usize) -> (r: usize)
        requires
            is_width(w as int),
            lo + w <= NUM_SLOTS,
        ensures
            r == only_child_index(self.slots(), lo as int, w as int),
            lo <= r < lo + w,
        decreases w,
    {
        if w <= 1 {
            lo
        } else if count_range(&self.children.slots, lo, lo + w / 2) > 0 {
            self.only_child(lo, w / 2)
        } else {
            self.only_child(lo + w / 2, w / 2)
        }
    }

    fn merkle_hash(&self, lo: usize, w: usize) -> (r: HashValue)
        requires
            is_width(w as int),
            lo + w <= NUM_SLOTS,
        ensures
            r@ == range_hash(self.slots(), lo as int, w as int),
        decreases w,
    {
        let c = count_range(&self.children.slots, lo, lo + w);
        proof {
            lemma_count_bound(self.slots(), lo as int, (lo + w) as int);
        }
        if c == 0 {
            placeholder_hash()
        } else if c == 1 || w < 2 {
            let i = self.only_child(lo, w);
            proof {
                lemma_only_child_present(self.slots(), lo as int, w as int);
            }
            match self.children.slots[i] {
                Some(child) => child.hash,
                None => placeholder_hash(),
            }
        } else {
            let left = self.merkle_hash(lo, w / 2);
            let right = self.merkle_hash(lo + w / 2, w / 2);
            hash_internal(&left, &right)
        }
    }

    /// The digest of the node.
    pub fn hash(&self) -> (r: HashValue)
        ensures
            r@ == self.spec_hash(),
    {
        self.merkle_hash(0, NUM_SLOTS)
    }

    fn collect_siblings(&self, lo: usize, w: usize, n: usize, out: &mut Vec<HashValue>) -> (r:
        Option<usize>)
        requires
            is_width(w as int),
            lo + w <= NUM_SLOTS,
        ensures
            ({
                let spec_r = range_siblings(self.slots(), lo as int, w as int, n as int);
                &&& final(out)@.map_values(|h: HashValue| h@) == old(out)@.map_values(
                    |h: HashValue| h@,
                ) + spec_r.1
                &&& match spec_r.0 {
                    Some(i) => r == Some(i as usize) && self.slots()[i] is Some && lo <= i < lo
                        + w,
                    None => r is None,
                }
            }),
        decreases w,
    {
        let ghost start = out@;
        let c = count_range(&self.children.slots, lo, lo + w);
        proof {
            lemma_count_bound(self.slots(), lo as int, (lo + w) as int);
        }
        if c == 0 {
            assert(out@.map_values(|h: HashValue| h@) =~= start.map_values(|h: HashValue| h@)
                + Seq::<Seq<u8>>::empty());
            None
        } else if c == 1 || w < 2 {
            let i = self.only_child(lo, w);
            proof {
                lemma_only_child_present(self.slots(), lo as int, w as int);
                assert(out@.map_values(|h: HashValue| h@) =~= start.map_values(|h: HashValue| h@)
                    + Seq::<Seq<u8>>::empty());
            }
            Some(i)
        } else {
            let h = w / 2;
            let (sib, next) = if n < lo + h {
                (self.merkle_hash(lo + h, h), lo)
            } else {
                (self.merkle_hash(lo, h), lo + h)
            };
            out.push(sib);
            let ghost mid = out@;
            let r = self.collect_siblings(next, h, n, out);
            proof {
                let spec_r = range_siblings(self.slots(), lo as int, w as int, n as int);
                let below = range_siblings(self.slots(), next as int, h as int, n as int);
                assert(mid.map_values(|x: HashValue| x@) =~= start.map_values(|x: HashValue| x@)
                    + seq![sib@]);
                assert(spec_r.1 == seq![sib@] + below.1);
                assert(out@.map_values(|x: HashValue| x@) =~= start.map_values(|x: HashValue| x@)
                    + spec_r.1);
            }
            r
        }
    }

    /// The child met on the way down toward slot `n`, as a key under `node_key`,
    /// and the digests needed to rebuild this node's digest from it, the
    /// topmost first.
    pub fn get_child_with_siblings(&self, node_key: &NodeKey, n: Nibble) -> (r: (
        Option<NodeKey>,
        Vec<HashValue>,
    ))
        requires
            node_key.wf(),
            node_key@.1.len() < MAX_NIBBLES,
        ensures
            ({
                let spec_r = range_siblings(self.slots(), 0, 16, n@ as int);
                &&& r.1@.map_values(|h: HashValue| h@) == spec_r.1
                &&& match spec_r.0 {
                    Some(i) => r.0 matches Some(k) && k.wf() && k@ == (
                        self.slots()[i]->Some_0.version,
                        node_key@.1.push(i as u8),
                    ),
                    None => r.0 is None,
                }
            }),
            self.slots()[n@ as int] matches Some(c) ==> r.0 matches Some(k) && k@ == (
                c.version,
                node_key@.1.push(n@),
            ),
    {
        let mut siblings: Vec<HashValue> = Vec::new();
        let nv = n.value() as usize;
        proof {
            if self.slots()[n@ as int] is Some {
                lemma_siblings_find_present(self.slots(), 0, 16, n@ as int);
            }
        }
        let found = self.collect_siblings(0, NUM_SLOTS, nv, &mut siblings);
        proof {
            assert(siblings@.map_values(|h: HashValue| h@) =~= Seq::<Seq<u8>>::empty()
                + range_siblings(self.slots(), 0, 16, n@ as int).1);
        }
        match found {
            None => (None, siblings),
            Some(i) => {
                let version = match self.children.slots[i] {
                    Some(child) => child.version,
                    None => 0,
                };
                let key = node_key.gen_child_node_key(version, Nibble::new(i as u8));
                (Some(key), siblings)
            },
        }
    }
}

proof fn lemma_only_child_is(s: Seq<Option<Child>>, lo: int, w: int, n: int)
    requires
        is_width(w),
        0 <= lo <= n < lo + w,
        s[n] is Some,
        present_count(s, lo, lo + w) == 1,
    ensures
        only_child_index(s, lo, w) == n,
    decreases w,
{
    if w > 1 {
        let h = w / 2;
        lemma_count_split(s, lo, lo + h, lo + w);
        if n < lo + h {
            lemma_count_split(s, lo, n, lo + h);
            lemma_count_split(s, n, n + 1, lo + h);
            lemma_only_child_is(s, lo, h, n);
        } else {
            lemma_count_split(s, lo + h, n, lo + w);
            lemma_count_split(s, n, n + 1, lo + w);
            lemma_only_child_is(s, lo + h, h, n);
        }
    }
}

/// When slot `n` holds a child, the descent toward `n` ends at that child.
pub proof fn lemma_siblings_find_present(s: Seq<Option<Child>>, lo: int, w: int, n: int)
    requires
        is_width(w),
        0 <= lo <= n < lo + w,
        s[n] is Some,
    ensures
        range_siblings(s, lo, w, n).0 == Some(n),
    decreases w,
{
    lemma_count_split(s, lo, n, lo + w);
    lemma_count_split(s, n, n + 1, lo + w);
    lemma_count_bound(s, lo, lo + w);
    let c = present_count(s, lo, lo + w);
    if c == 1 {
        lemma_only_child_is(s, lo, w, n);
    } else if w >= 2 {
        if n < lo + w / 2 {
            lemma_siblings_find_present(s, lo, w / 2, n);
        } else {
            lemma_siblings_find_present(s, lo + w / 2, w / 2, n);
        }
    }
}

proof fn lemma_count_zero(s: Seq<Option<Child>>, lo: int, hi: int)
    requires
        forall|j: int| lo <= j < hi ==> s[j] is None,
    ensures
        present_count(s, lo, hi) == 0,
    decreases hi - lo,
{
    if hi > lo {
        lemma_count_zero(s, lo, hi - 1);
    }
}

/// A node with no children hashes to the placeholder, and every query on it
/// finds no child and no sibling.
pub proof fn lemma_empty_node(node: InternalNode, n: int)
    requires
        forall|i: int| 0 <= i < 16 ==> node.slots()[i] is None,
    ensures
        node.spec_hash() == placeholder_bytes(),
        range_siblings(node.slots(), 0, 16, n) == (None::<int>, Seq::<Seq<u8>>::empty()),
{
    lemma_count_zero(node.slots(), 0, 16);
}

/// Two digests with the same bytes are the same value.
pub proof fn lemma_hash_value_eq(a: HashValue, b: HashValue)
    requires
        a@ == b@,
    ensures
        a == b,
{
    assert(a.bytes =~= b.bytes);
}

/// Hashing an unchanged node twice, or asking it twice for the siblings of one
/// slot, gives the same values: the results depend on the node and the query
/// alone.
pub proof fn lemma_idempotent(
    node: InternalNode,
    n: int,
    h1: HashValue,
    h2: HashValue,
    s1: Seq<HashValue>,
    s2: Seq<HashValue>,
)
    requires
        h1@ == node.spec_hash(),
        h2@ == node.spec_hash(),
        s1.map_values(|h: HashValue| h@) == range_siblings(node.slots(), 0, 16, n).1,
        s2.map_values(|h: HashValue| h@) == range_siblings(node.slots(), 0, 16, n).1,
    ensures
        h1 == h2,
        s1 == s2,
{
    lemma_hash_value_eq(h1, h2);
    assert(s1.map_values(|h: HashValue| h@).len() == s1.len());
    assert(s2.map_values(|h: HashValue| h@).len() == s2.len());
    assert forall|i: int| 0 <= i < s1.len() implies s1[i] == s2[i] by {
        assert(s1.map_values(|h: HashValue| h@)[i] == s2.map_values(|h: HashValue| h@)[i]);
        lemma_hash_value_eq(s1[i], s2[i]);
    }
    assert(s1 =~= s2);
}

proof fn lemma_count_one(s: Seq<Option<Child>>, lo: int, hi: int, n: int)
    requires
        lo <= n < hi,
        s[n] is Some,
        forall|j: int| lo <= j < hi && j != n ==> s[j] is None,
    ensures
        present_count(s, lo, hi) == 1,
{
    lemma_count_split(s, lo, n, hi);
    lemma_count_split(s, n, n + 1, hi);
    lemma_count_zero(s, lo, n);
    lemma_count_zero(s, n + 1, hi);
    reveal_with_fuel(present_count, 2);
}

proof fn lemma_count_two(s: Seq<Option<Child>>, lo: int, mid: int, hi: int, a: int, b: int)
    requires
        lo <= a < mid <= b < hi,
        s[a] is Some,
        s[b] is Some,
        forall|j: int| lo <= j < hi && j != a && j != b ==> s[j] is None,
    ensures
        present_count(s, lo, mid) == 1,
        present_count(s, mid, hi) == 1,
        present_count(s, lo, hi) == 2,
{
    lemma_count_one(s, lo, mid, a);
    lemma_count_one(s, mid, hi, b);
    lemma_count_split(s, lo, mid, hi);
}

/// A range holding exactly one child, at `n`, hashes to that child's digest.
proof fn lemma_one_child_hash(s: Seq<Option<Child>>, lo: int, w: int, n: int)
    requires
        is_width(w),
        0 <= lo <= n < lo + w,
        s[n] is Some,
        forall|j: int| lo <= j < lo + w && j != n ==> s[j] is None,
    ensures
        range_hash(s, lo, w) == s[n]->Some_0.hash@,
        range_siblings(s, lo, w, n).0 == Some(n),
        range_siblings(s, lo, w, n).1 == Seq::<Seq<u8>>::empty(),
{
    lemma_count_one(s, lo, lo + w, n);
    lemma_only_child_is(s, lo, w, n);
}

/// Two children in opposite halves, at `a` below 8 and `b` from 8 on: the
/// node hashes to the combination of their two digests, and a query on either
/// half finds that half's child with the other child's digest as the only
/// sibling.
pub proof fn lemma_opposite_halves(node: InternalNode, a: int, b: int, t: int)
    requires
        0 <= a < 8 <= b < 16,
        0 <= t < 16,
        node.slots()[a] is Some,
        node.slots()[b] is Some,
        forall|j: int| 0 <= j < 16 && j != a && j != b ==> node.slots()[j] is None,
    ensures
        node.spec_hash() == internal_combine(
            node.slots()[a]->Some_0.hash@,
            node.slots()[b]->Some_0.hash@,
        ),
        t < 8 ==> range_siblings(node.slots(), 0, 16, t) == (
            Some(a),
            seq![node.slots()[b]->Some_0.hash@],
        ),
        t >= 8 ==> range_siblings(node.slots(), 0, 16, t) == (
            Some(b),
            seq![node.slots()[a]->Some_0.hash@],
        ),
{
    let s = node.slots();
    lemma_count_two(s, 0, 8, 16, a, b);
    lemma_one_child_hash(s, 0, 8, a);
    lemma_one_child_hash(s, 8, 8, b);
    lemma_only_child_is(s, 0, 8, a);
    lemma_only_child_is(s, 8, 8, b);
    if t < 8 {
        assert(range_siblings(s, 0, 8, t) == (Some(a), Seq::<Seq<u8>>::empty()));
        assert(range_siblings(s, 0, 16, t).1 =~= seq![s[b]->Some_0.hash@]);
    } else {
        assert(range_siblings(s, 8, 8, t) == (Some(b), Seq::<Seq<u8>>::empty()));
        assert(range_siblings(s, 0, 16, t).1 =~= seq![s[a]->Some_0.hash@]);
    }
}

/// Two children at slots 4 and 6: the implicit tree splits three times above
/// them. A query below 4 finds no child, with the placeholder and the
/// combination of the two digests as siblings; a query at 4 finds the child
/// at 4, with two placeholders and the digest at 6.
pub proof fn lemma_same_quarter(node: InternalNode, t: int)
    requires
        0 <= t < 4,
        node.slots()[4] is Some,
        node.slots()[6] is Some,
        forall|j: int| 0 <= j < 16 && j != 4 && j != 6 ==> node.slots()[j] is None,
    ensures
        range_siblings(node.slots(), 0, 16, t) == (
            None::<int>,
            seq![
                placeholder_bytes(),
                internal_combine(node.slots()[4]->Some_0.hash@, node.slots()[6]->Some_0.hash@),
            ],
        ),
        range_siblings(node.slots(), 0, 16, 4) == (
            Some(4int),
            seq![placeholder_bytes(), placeholder_bytes(), node.slots()[6]->Some_0.hash@],
        ),
{
    let s = node.slots();
    let h4 = s[4]->Some_0.hash@;
    let h6 = s[6]->Some_0.hash@;
    lemma_count_two(s, 4, 6, 8, 4, 6);
    lemma_count_two(s, 0, 6, 8, 4, 6);
    lemma_count_two(s, 0, 6, 16, 4, 6);
    lemma_count_zero(s, 8, 16);
    lemma_count_zero(s, 0, 4);
    lemma_count_split(s, 0, 4, 8);
    lemma_one_child_hash(s, 4, 2, 4);
    lemma_one_child_hash(s, 6, 2, 6);
    assert(range_hash(s, 8, 8) == placeholder_bytes());
    assert(range_hash(s, 0, 4) == placeholder_bytes());
    assert(range_hash(s, 4, 4) == internal_combine(h4, h6));
    assert(range_siblings(s, 0, 4, t) == (None::<int>, Seq::<Seq<u8>>::empty()));
    assert(range_siblings(s, 0, 8, t).1 =~= seq![internal_combine(h4, h6)]);
    assert(range_siblings(s, 0, 16, t).1 =~= seq![placeholder_bytes(), internal_combine(h4, h6)]);
    assert(range_siblings(s, 4, 4, 4).1 =~= seq![h6]);
    assert(range_siblings(s, 0, 8, 4).1 =~= seq![placeholder_bytes(), h6]);
    assert(range_siblings(s, 0, 16, 4).1 =~= seq![placeholder_bytes(), placeholder_bytes(), h6]);
}

/// Three children, at `a` in 0..4, `b` in 4..8 and `c` in 8..16: the node
/// hashes to the combination of (the combination of the first two) and the
/// third, and a query from 8 on finds the third child with the combination of
/// the first two as its only sibling.
pub proof fn lemma_three_children(node: InternalNode, a: int, b: int, c: int, t: int)
    requires
        0 <= a < 4 <= b < 8 <= c < 16,
        8 <= t < 16,
        node.slots()[a] is Some,
        node.slots()[b] is Some,
        node.slots()[c] is Some,
        forall|j: int| 0 <= j < 16 && j != a && j != b && j != c ==> node.slots()[j] is None,
    ensures
        ({
            let s = node.slots();
            let inner = internal_combine(s[a]->Some_0.hash@, s[b]->Some_0.hash@);
            &&& node.spec_hash() == internal_combine(inner, s[c]->Some_0.hash@)
            &&& range_siblings(s, 0, 16, t) == (Some(c), seq![inner])
        }),
{
    let s = node.slots();
    lemma_count_two(s, 0, 4, 8, a, b);
    lemma_one_child_hash(s, 0, 4, a);
    lemma_one_child_hash(s, 4, 4, b);
    lemma_one_child_hash(s, 8, 8, c);
    lemma_count_one(s, 8, 16, c);
    lemma_count_split(s, 0, 8, 16);
    lemma_only_child_is(s, 8, 8, c);
    let inner = internal_combine(s[a]->Some_0.hash@, s[b]->Some_0.hash@);
    assert(range_hash(s, 0, 8) == inner);
    assert(range_siblings(s, 8, 8, t) == (Some(c), Seq::<Seq<u8>>::empty()));
    assert(range_siblings(s, 0, 16, t).1 =~= seq![inner]);
}

} // verus!
