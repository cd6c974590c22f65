use vstd::bytes::{spec_u64_from_le_bytes, spec_u64_to_le_bytes, u64_from_le_bytes, u64_to_le_bytes, lemma_auto_spec_u64_to_from_le_bytes};
use vstd::prelude::*;
use vstd::slice::slice_subrange;

use crate::hash::{append_hash, hash_leaf, leaf_combine, value_digest, AccountStateBlob, HashValue, HASH_LENGTH};
use crate::internal::{Child, Children, InternalNode, NUM_SLOTS};

verus! {

/// A terminal node: the full key and the digest of the value stored under it.
#[derive(Clone, Copy, Debug, PartialEq, Eq)]
pub struct LeafNode {
    pub key: HashValue,
    pub value_hash: HashValue,
}

impl LeafNode {
    pub fn new(key: HashValue, value_hash: HashValue) -> (r: LeafNode)
        ensures
            r == (LeafNode { key, value_hash }),
    {
        LeafNode { key, value_hash }
    }

    pub fn hash(&self) -> (r: HashValue)
        ensures
            r@ == leaf_combine(self.key@, self.value_hash@),
    {
        hash_leaf(&self.key, &self.value_hash)
    }
}

/// A node of the tree.
#[derive(Clone, Copy, Debug, PartialEq, Eq)]
pub enum Node {
    Internal(InternalNode),
    Leaf(LeafNode),
}

/// Why a byte string is not the encoding of a node.
#[derive(Clone, Copy, Debug, PartialEq, Eq)]
pub enum NodeDecodeError {
    EmptyInput,
    UnknownTag { unknown_tag: u8 },
    MalformedPayload,
}

/// What a child slot holds, as plain values: digest, version and leaf flag.
pub type ChildView = (Seq<u8>, u64, bool);

/// A node as plain values.
pub enum NodeView {
    Internal(Seq<Option<ChildView>>),
    Leaf(Seq<u8>, Seq<u8>),
}

pub const LEAF_NODE_TAG: u8 = 0;
pub const INTERNAL_NODE_TAG: u8 = 1;
/// Bytes of one child entry: nibble, leaf flag, version, digest.
pub const ENTRY_LENGTH: usize = 42;

pub open spec fn child_view(c: Child) -> ChildView {
    (c.hash@, c.version, c.is_leaf)
}

pub open spec fn slot_view(o: Option<Child>) -> Option<ChildView> {
    match o {
        Some(c) => Some(child_view(c)),
        None => None,
    }
}

pub open spec fn slots_view(s: Seq<Option<Child>>) -> Seq<Option<ChildView>> {
    Seq::new(16, |j: int| slot_view(s[j]))
}

impl View for Node {
    type V = NodeView;

    open spec fn view(&self) -> NodeView {
        match self {
            Node::Internal(n) => NodeView::Internal(slots_view(n.slots())),
            Node::Leaf(l) => NodeView::Leaf(l.key@, l.value_hash@),
        }
    }
}

/// The bytes of one child entry.
pub open spec fn entry_bytes(i: int, c: ChildView) -> Seq<u8> {
    seq![i as u8, if c.2 { 1u8 } else { 0u8 }] + spec_u64_to_le_bytes(c.1) + c.0
}

/// The entries of the present children from slot `lo` on, in slot order.
pub open spec fn entries(s: Seq<Option<ChildView>>, lo: int) -> Seq<u8>
    decreases 16 - lo,
{
    if lo >= 16 {
        Seq::empty()
    } else {
        slot_entry(s, lo) + entries(s, lo + 1)
    }
}

pub open spec fn slot_entry(s: Seq<Option<ChildView>>, i: int) -> Seq<u8> {
    match s[i] {
        Some(c) => entry_bytes(i, c),
        None => Seq::empty(),
    }
}

/// The number of present children from slot `lo` on.
pub open spec fn child_count(s: Seq<Option<ChildView>>, lo: int) -> nat
    decreases 16 - lo,
{
    if lo >= 16 {
        0
    } else {
        (if s[lo] is Some { 1nat } else { 0nat }) + child_count(s, lo + 1)
    }
}

/// The encoding of a node: a tag byte, then the key and value digest of a
/// leaf, or the number of an internal node's children followed by their
/// entries.
pub open spec fn encoding(v: NodeView) -> Seq<u8> {
    match v {
        NodeView::Leaf(k, h) => seq![LEAF_NODE_TAG] + k + h,
        NodeView::Internal(s) => seq![INTERNAL_NODE_TAG, child_count(s, 0) as u8] + entries(s, 0),
    }
}

pub open spec fn no_children() -> Seq<Option<ChildView>> {
    Seq::new(16, |j: int| None)
}

/// Reads child entries whose slots rise strictly from `lo` on; `None` unless
/// the bytes are exactly such a list.
pub open spec fn parse_entries(b: Seq<u8>, lo: int) -> Option<Seq<Option<ChildView>>>
    decreases b.len(),
{
    if b.len() == 0 {
        Some(no_children())
    } else if b.len() < ENTRY_LENGTH || b[0] < lo || b[0] >= 16 || b[1] > 1 {
        None
    } else {
        match parse_entries(b.subrange(ENTRY_LENGTH as int, b.len() as int), b[0] + 1) {
            None => None,
            Some(s) => Some(
                s.update(
                    b[0] as int,
                    Some(
                        (
                            b.subrange(10, ENTRY_LENGTH as int),
                            spec_u64_from_le_bytes(b.subrange(2, 10)),
                            b[1] == 1,
                        ),
                    ),
                ),
            ),
        }
    }
}

/// What decoding yields on a byte string.
pub open spec fn decoding(b: Seq<u8>) -> Result<NodeView, NodeDecodeError> {
    if b.len() == 0 {
        Err(NodeDecodeError::EmptyInput)
    } else if b[0] == LEAF_NODE_TAG {
        if b.len() == 1 + 2 * HASH_LENGTH {
            Ok(NodeView::Leaf(b.subrange(1, 33), b.subrange(33, 65)))
        } else {
            Err(NodeDecodeError::MalformedPayload)
        }
    } else if b[0] == INTERNAL_NODE_TAG {
        if b.len() < 2 || b.len() != 2 + ENTRY_LENGTH * b[1] {
            Err(NodeDecodeError::MalformedPayload)
        } else {
            match parse_entries(b.subrange(2, b.len() as int), 0) {
                Some(s) => Ok(NodeView::Internal(s)),
                None => Err(NodeDecodeError::MalformedPayload),
            }
        }
    } else {
        Err(NodeDecodeError::UnknownTag { unknown_tag: b[0] })
    }
}

pub open spec fn slots_from(s: Seq<Option<ChildView>>, lo: int) -> Seq<Option<ChildView>> {
    Seq::new(16, |j: int| if j < lo { None } else { s[j] })
}

pub open spec fn valid_slots(s: Seq<Option<ChildView>>) -> bool {
    &&& s.len() == 16
    &&& forall|j: int| 0 <= j < 16 ==> (#[trigger] s[j] matches Some(c) ==> c.0.len() == 32)
}

proof fn lemma_parse_entries(s: Seq<Option<ChildView>>, lo: int, start: int)
    requires
        valid_slots(s),
        0 <= start <= lo <= 16,
    ensures
        parse_entries(entries(s, lo), start) == Some(slots_from(s, lo)),
    decreases 16 - lo,
{
    lemma_auto_spec_u64_to_from_le_bytes();
    if lo >= 16 {
        assert(slots_from(s, lo) =~= no_children());
    } else {
        lemma_parse_entries(s, lo + 1, lo + 1);
        match s[lo] {
            None => {
                assert(entries(s, lo) =~= entries(s, lo + 1));
                lemma_parse_entries(s, lo + 1, start);
                assert(slots_from(s, lo + 1) =~= slots_from(s, lo));
            },
            Some(c) => {
                let b = entries(s, lo);
                let e = entry_bytes(lo, c);
                assert(b =~= e + entries(s, lo + 1));
                assert(b.subrange(ENTRY_LENGTH as int, b.len() as int) =~= entries(s, lo + 1));
                assert(b.subrange(2, 10) =~= spec_u64_to_le_bytes(c.1));
                assert(b.subrange(10, ENTRY_LENGTH as int) =~= c.0);
                assert(b[0] == lo);
                assert(slots_from(s, lo + 1).update(lo, Some(c)) =~= slots_from(s, lo));
            },
        }
    }
}

proof fn lemma_entries_len(s: Seq<Option<ChildView>>, lo: int)
    requires
        valid_slots(s),
        0 <= lo <= 16,
    ensures
        entries(s, lo).len() == ENTRY_LENGTH * child_count(s, lo),
        child_count(s, lo) <= 16 - lo,
    decreases 16 - lo,
{
    lemma_auto_spec_u64_to_from_le_bytes();
    if lo < 16 {
        lemma_entries_len(s, lo + 1);
    }
}

proof fn lemma_entries_agree(s: Seq<Option<ChildView>>, t: Seq<Option<ChildView>>, lo: int)
    requires
        0 <= lo,
        forall|j: int| lo <= j < 16 ==> s[j] == t[j],
    ensures
        entries(s, lo) == entries(t, lo),
    decreases 16 - lo,
{
    if lo < 16 {
        lemma_entries_agree(s, t, lo + 1);
    }
}

proof fn lemma_entries_skip(s: Seq<Option<ChildView>>, lo: int, hi: int)
    requires
        0 <= lo <= hi <= 16,
        forall|j: int| lo <= j < hi ==> s[j] is None,
    ensures
        entries(s, lo) == entries(s, hi),
    decreases hi - lo,
{
    if lo < hi {
        lemma_entries_skip(s, lo + 1, hi);
        assert(entries(s, lo) =~= entries(s, lo + 1));
    }
}

/// What the entry parser accepts is exactly the entries of what it returns.
proof fn lemma_parse_sound(b: Seq<u8>, lo: int)
    requires
        0 <= lo <= 16,
        parse_entries(b, lo) is Some,
    ensures
        ({
            let s = parse_entries(b, lo)->Some_0;
            &&& valid_slots(s)
            &&& entries(s, lo) == b
            &&& forall|j: int| 0 <= j < lo ==> s[j] is None
        }),
    decreases b.len(),
{
    lemma_auto_spec_u64_to_from_le_bytes();
    let s = parse_entries(b, lo)->Some_0;
    if b.len() == 0 {
        lemma_entries_skip(s, lo, 16);
    } else {
        let i = b[0] as int;
        let rest = b.subrange(ENTRY_LENGTH as int, b.len() as int);
        lemma_parse_sound(rest, i + 1);
        let t = parse_entries(rest, i + 1)->Some_0;
        let cv = (
            b.subrange(10, ENTRY_LENGTH as int),
            spec_u64_from_le_bytes(b.subrange(2, 10)),
            b[1] == 1,
        );
        assert(s == t.update(i, Some(cv)));
        lemma_entries_agree(s, t, i + 1);
        lemma_entries_skip(s, lo, i);
        assert(b.subrange(2, 10).len() == 8);
        assert(entry_bytes(i, cv) =~= b.subrange(0, ENTRY_LENGTH as int));
        assert(entries(s, i) == entry_bytes(i, cv) + entries(s, i + 1));
        assert(b =~= b.subrange(0, ENTRY_LENGTH as int) + rest);
    }
}

/// Decoding an encoded node gives the node back.
pub proof fn lemma_decode_encode(v: NodeView)
    requires
        v matches NodeView::Internal(s) ==> valid_slots(s),
        v matches NodeView::Leaf(k, h) ==> k.len() == 32 && h.len() == 32,
    ensures
        decoding(encoding(v)) == Ok::<NodeView, NodeDecodeError>(v),
{
    let b = encoding(v);
    match v {
        NodeView::Leaf(k, h) => {
            assert(b.subrange(1, 33) =~= k);
            assert(b.subrange(33, 65) =~= h);
        },
        NodeView::Internal(s) => {
            lemma_parse_entries(s, 0, 0);
            lemma_entries_len(s, 0);
            assert(b.subrange(2, b.len() as int) =~= entries(s, 0));
            assert(slots_from(s, 0) =~= s);
        },
    }
}

fn parse_from(b: &[u8], off: usize, lo: usize) -> (r: Option<[Option<Child>; 16]>)
    requires
        off <= b@.len(),
        lo <= NUM_SLOTS,
    ensures
        match r {
            Some(a) => parse_entries(b@.subrange(off as int, b@.len() as int), lo as int) == Some(
                slots_view(a@),
            ),
            None => parse_entries(b@.subrange(off as int, b@.len() as int), lo as int) is None,
        },
    decreases b@.len() - off,
{
    let ghost sub = b@.subrange(off as int, b@.len() as int);
    let rest = b.len() - off;
    if rest == 0 {
        let a: [Option<Child>; 16] = [None; 16];
        assert(slots_view(a@) =~= no_children());
        return Some(a);
    }
    if rest < ENTRY_LENGTH || (b[off] as usize) < lo || b[off] >= 16 || b[off + 1] > 1 {
        return None;
    }
    let i = b[off] as usize;
    assert(sub.subrange(ENTRY_LENGTH as int, sub.len() as int) =~= b@.subrange(
        off + ENTRY_LENGTH,
        b@.len() as int,
    ));
    match parse_from(b, off + ENTRY_LENGTH, i + 1) {
        None => None,
        Some(a) => {
            let version = u64_from_le_bytes(slice_subrange(b, off + 2, off + 10));
            assert(sub.subrange(2, 10) =~= b@.subrange(off + 2, off + 10));
            assert(sub.subrange(10, ENTRY_LENGTH as int) =~= b@.subrange(off + 10, off + 42));
            match HashValue::from_slice(slice_subrange(b, off + 10, off + ENTRY_LENGTH)) {
                None => None,
                Some(hash) => {
                    let mut a = a;
                    let child = Child { hash, version, is_leaf: b[off + 1] == 1 };
                    let ghost before = a@;
                    a[i] = Some(child);
                    assert(slots_view(a@) =~= slots_view(before).update(
                        i as int,
                        Some(child_view(child)),
                    ));
                    Some(a)
                },
            }
        },
    }
}

impl Node {
    /// The digest of the node.
    pub open spec fn spec_hash(&self) -> Seq<u8> {
        match self {
            Node::Internal(n) => n.spec_hash(),
            Node::Leaf(l) => leaf_combine(l.key@, l.value_hash@),
        }
    }

    pub fn new_internal(children: Children) -> (r: Node)
        ensures
            r == Node::Internal(InternalNode { children }),
    {
        Node::Internal(InternalNode::new(children))
    }

    /// A leaf for `key` that holds the digest of `blob`.
    pub fn new_leaf(key: HashValue, blob: AccountStateBlob) -> (r: Node)
        ensures
            r matches Node::Leaf(l) && l.key == key && l.value_hash@ == value_digest(blob.blob@),
            r@ == NodeView::Leaf(key@, value_digest(blob.blob@)),
    {
        let value_hash = blob.hash();
        Node::Leaf(LeafNode::new(key, value_hash))
    }

    pub fn is_leaf(&self) -> (r: bool)
        ensures
            r == self is Leaf,
    {
        match self {
            Node::Leaf(_) => true,
            Node::Internal(_) => false,
        }
    }

    pub fn hash(&self) -> (r: HashValue)
        ensures
            r@ == self.spec_hash(),
    {
        match self {
            Node::Internal(n) => n.hash(),
            Node::Leaf(l) => l.hash(),
        }
    }

    /// The bytes that store the node.
    pub fn encode(&self) -> (r: Vec<u8>)
        ensures
            r@ == encoding(self@),
    {
        let mut out: Vec<u8> = Vec::new();
        match self {
            Node::Leaf(l) => {
                out.push(LEAF_NODE_TAG);
                append_hash(&mut out, &l.key);
                append_hash(&mut out, &l.value_hash);
                assert(out@ =~= encoding(self@));
            },
            Node::Internal(n) => {
                let ghost sv = slots_view(n.slots());
                let mut count: u8 = 0;
                let mut j: usize = 0;
                while j < NUM_SLOTS
                    invariant
                        j <= NUM_SLOTS,
                        sv == slots_view(n.slots()),
                        count as nat + child_count(sv, j as int) == child_count(sv, 0),
                        count <= j,
                    decreases NUM_SLOTS - j,
                {
                    if n.children.slots[j].is_some() {
                        count = count + 1;
                    }
                    j = j + 1;
                }
                out.push(INTERNAL_NODE_TAG);
                out.push(count);
                let mut i: usize = 0;
                assert(out@ + entries(sv, 0) =~= encoding(self@));
                while i < NUM_SLOTS
                    invariant
                        i <= NUM_SLOTS,
                        sv == slots_view(n.slots()),
                        self@ == NodeView::Internal(sv),
                        out@ + entries(sv, i as int) == encoding(self@),
                    decreases NUM_SLOTS - i,
                {
                    let ghost prev = out@;
                    match n.children.slots[i] {
                        Some(c) => {
                            out.push(i as u8);
                            out.push(if c.is_leaf { 1u8 } else { 0u8 });
                            let v = u64_to_le_bytes(c.version);
                            let mut k: usize = 0;
                            let ghost mid = out@;
                            while k < 8
                                invariant
                                    k <= 8,
                                    v@.len() == 8,
                                    out@ == mid + v@.subrange(0, k as int),
                                decreases 8 - k,
                            {
                                out.push(v[k]);
                                assert(out@ =~= mid + v@.subrange(0, k + 1));
                                k = k + 1;
                            }
                            append_hash(&mut out, &c.hash);
                            assert(out@ =~= prev + slot_entry(sv, i as int));
                        },
                        None => {
                            assert(out@ =~= prev + slot_entry(sv, i as int));
                        },
                    }
                    assert(entries(sv, i as int) == slot_entry(sv, i as int) + entries(
                        sv,
                        i + 1,
                    ));
                    assert(out@ + entries(sv, i + 1) =~= prev + entries(sv, i as int));
                    i = i + 1;
                }
                assert(entries(sv, 16) =~= Seq::<u8>::empty());
                assert(out@ =~= out@ + entries(sv, 16));
            },
        }
        out
    }

    /// Reads a node from its bytes: it succeeds exactly on the encodings of
    /// nodes, and returns the node encoded.
    pub fn decode(b: &[u8]) -> (r: Result<Node, NodeDecodeError>)
        ensures
            r matches Ok(m) ==> b@ == encoding(m@),
            forall|m: Node| b@ == #[trigger] encoding(m@) ==> r == Ok::<Node, NodeDecodeError>(m),
            r == Err::<Node, NodeDecodeError>(NodeDecodeError::MalformedPayload) ==> b@.len() > 0
                && b@[0] <= 1,
            b@.len() == 0 ==> r == Err::<Node, NodeDecodeError>(NodeDecodeError::EmptyInput),
            b@.len() > 0 && b@[0] > 1 ==> r == Err::<Node, NodeDecodeError>(
                NodeDecodeError::UnknownTag { unknown_tag: b@[0] },
            ),
    {
        let r = Node::decode_bytes(b);
        proof {
            if let Ok(m) = r {
                Node::lemma_decoded_is_encoding(b@, m);
            }
            assert forall|m: Node| b@ == #[trigger] encoding(m@) implies r == Ok::<
                Node,
                NodeDecodeError,
            >(m) by {
                lemma_round_trip(m);
                if let Ok(d) = r {
                    lemma_view_injective(d, m);
                }
            }
        }
        r
    }

    proof fn lemma_decoded_is_encoding(b: Seq<u8>, m: Node)
        requires
            decoding(b) == Ok::<NodeView, NodeDecodeError>(m@),
        ensures
            b == encoding(m@),
    {
        if b[0] == INTERNAL_NODE_TAG {
            let body = b.subrange(2, b.len() as int);
            lemma_parse_sound(body, 0);
            let s = parse_entries(body, 0)->Some_0;
            lemma_entries_len(s, 0);
            assert(b =~= seq![INTERNAL_NODE_TAG, child_count(s, 0) as u8] + entries(s, 0));
        } else {
            assert(b =~= seq![LEAF_NODE_TAG] + b.subrange(1, 33) + b.subrange(33, 65));
        }
    }

    fn decode_bytes(b: &[u8]) -> (r: Result<Node, NodeDecodeError>)
        ensures
            match r {
                Ok(m) => decoding(b@) == Ok::<NodeView, NodeDecodeError>(m@),
                Err(e) => decoding(b@) == Err::<NodeView, NodeDecodeError>(e),
            },
    {
        if b.len() == 0 {
            return Err(NodeDecodeError::EmptyInput);
        }
        let tag = b[0];
        if tag == LEAF_NODE_TAG {
            if b.len() != 1 + 2 * HASH_LENGTH {
                return Err(NodeDecodeError::MalformedPayload);
            }
            let key = HashValue::from_slice(slice_subrange(b, 1, 33));
            let value_hash = HashValue::from_slice(slice_subrange(b, 33, 65));
            match (key, value_hash) {
                (Some(key), Some(value_hash)) => Ok(Node::Leaf(LeafNode { key, value_hash })),
                _ => Err(NodeDecodeError::MalformedPayload),
            }
        } else if tag == INTERNAL_NODE_TAG {
            if b.len() < 2 || b.len() != 2 + ENTRY_LENGTH * (b[1] as usize) {
                return Err(NodeDecodeError::MalformedPayload);
            }
            match parse_from(b, 2, 0) {
                Some(slots) => Ok(Node::Internal(InternalNode { children: Children { slots } })),
                None => Err(NodeDecodeError::MalformedPayload),
            }
        } else {
            Err(NodeDecodeError::UnknownTag { unknown_tag: tag })
        }
    }
}

/// Decoding what `encode` wrote gives back the same node.
pub proof fn lemma_round_trip(n: Node)
    ensures
        decoding(encoding(n@)) == Ok::<NodeView, NodeDecodeError>(n@),
{
    match n {
        Node::Leaf(l) => {
            assert(l.key@.len() == 32 && l.value_hash@.len() == 32);
        },
        Node::Internal(i) => {
            assert(valid_slots(slots_view(i.slots())));
        },
    }
    lemma_decode_encode(n@);
}

/// Two nodes with the same plain values are the same node.
pub proof fn lemma_view_injective(a: Node, b: Node)
    requires
        a@ == b@,
    ensures
        a == b,
{
    match (a, b) {
        (Node::Leaf(x), Node::Leaf(y)) => {
            assert(x.key.bytes =~= y.key.bytes);
            assert(x.value_hash.bytes =~= y.value_hash.bytes);
        },
        (Node::Internal(x), Node::Internal(y)) => {
            assert forall|j: int| 0 <= j < 16 implies x.slots()[j] == y.slots()[j] by {
                assert(slots_view(x.slots())[j] == slots_view(y.slots())[j]);
                match (x.slots()[j], y.slots()[j]) {
                    (Some(c), Some(d)) => {
                        assert(c.hash.bytes =~= d.hash.bytes);
                    },
                    _ => {},
                }
            }
            assert(x.children.slots =~= y.children.slots);
        },
        _ => {},
    }
}

/// Whatever `decode` returns on the bytes that `encode` wrote for `n` is `n`
/// itself.
pub proof fn lemma_round_trip_exact(n: Node, m: Node)
    requires
        decoding(encoding(n@)) == Ok::<NodeView, NodeDecodeError>(m@),
    ensures
        m == n,
{
    lemma_round_trip(n);
    lemma_view_injective(m, n);
}

/// Decoding stops at nothing short of the whole encoding: every proper,
/// non-empty prefix of an encoded node is a malformed payload.
pub proof fn lemma_prefix_malformed(n: Node, k: int)
    requires
        1 <= k < encoding(n@).len(),
    ensures
        decoding(encoding(n@).subrange(0, k)) == Err::<NodeView, NodeDecodeError>(
            NodeDecodeError::MalformedPayload,
        ),
{
    let e = encoding(n@);
    let b = e.subrange(0, k);
    match n {
        Node::Leaf(l) => {
            assert(l.key@.len() == 32 && l.value_hash@.len() == 32);
            assert(b[0] == LEAF_NODE_TAG);
        },
        Node::Internal(i) => {
            let sv = slots_view(i.slots());
            assert(valid_slots(sv));
            lemma_entries_len(sv, 0);
            assert(b[0] == INTERNAL_NODE_TAG);
            if k >= 2 {
                assert(b[1] == child_count(sv, 0) as u8);
            }
        },
    }
}

/// A leaf built from a key and a value blob hashes to the leaf combination of
/// the key and the blob's digest.
pub proof fn lemma_leaf_hash(key: HashValue, blob: AccountStateBlob, n: Node)
    requires
        n matches Node::Leaf(l) && l.key == key && l.value_hash@ == value_digest(blob.blob@),
    ensures
        n.spec_hash() == leaf_combine(key@, value_digest(blob.blob@)),
{
}

} // verus!
