//! Encodings of keys and values into the engine's byte strings.
//!
//! Every engine key starts with a namespace tag, so that no key of one
//! namespace decodes in another. Integers are fixed-width big-endian, so a
//! value key's byte order follows its version.

use crate::bytes::{
    be, be_value, lemma_be_len, lemma_be_value_bound, lemma_be_value_of_be, lemma_pow256_8, push_all, push_be, read_be,
};
use crate::bytes::{lemma_be_of_be_value, pow256, read_array32};
use crate::types::{
    Child, ChildView, KeyHash, LeafNode, Node, NodeKey, NodeKeyView, NodeView, ValueHash,
    child_wf, children_view, children_wf, node_key_wf, node_wf, path_wf,
};
use vstd::prelude::*;

verus! {

pub const NODE_KEY_TAG: u8 = 0;

pub const VALUE_KEY_TAG: u8 = 1;

pub const PREIMAGE_KEY_TAG: u8 = 2;

pub const LEAF_TAG: u8 = 0;

pub const INTERNAL_TAG: u8 = 1;

pub const TOMBSTONE_TAG: u8 = 0;

pub const PAYLOAD_TAG: u8 = 1;

/// Encoded size of one child reference.
pub const CHILD_LEN: usize = 42;

// ---- node keys ----

pub open spec fn node_key_bytes(k: NodeKeyView) -> Seq<u8> {
    seq![NODE_KEY_TAG] + be(k.version as nat, 8) + k.path
}

pub open spec fn node_key_of_bytes(b: Seq<u8>) -> Option<NodeKeyView> {
    if b.len() >= 9 && b[0] == NODE_KEY_TAG && path_wf(b.subrange(9, b.len() as int)) {
        Some(
            NodeKeyView {
                version: be_value(b.subrange(1, 9)) as u64,
                path: b.subrange(9, b.len() as int),
            },
        )
    } else {
        None
    }
}

pub fn encode_node_key(k: &NodeKey) -> (r: Vec<u8>)
    ensures
        r@ == node_key_bytes(k@),
{
    let mut out: Vec<u8> = Vec::new();
    out.push(NODE_KEY_TAG);
    push_be(&mut out, k.version, 8);
    push_all(&mut out, k.path.as_slice());
    proof {
        assert(out@ =~= node_key_bytes(k@));
    }
    out
}

/// Whether every byte of `b` from `start` on is a nibble.
fn all_nibbles(b: &Vec<u8>, start: usize) -> (r: bool)
    requires
        start <= b@.len(),
    ensures
        r == path_wf(b@.subrange(start as int, b@.len() as int)),
{
    let mut i: usize = start;
    while i < b.len()
        invariant
            start <= i <= b@.len(),
            forall|j: int| start <= j < i ==> b@[j] < 16,
        decreases b@.len() - i,
    {
        if b[i] >= 16 {
            proof {
                let s = b@.subrange(start as int, b@.len() as int);
                assert(s[i - start] >= 16);
            }
            return false;
        }
        i += 1;
    }
    true
}

pub fn decode_node_key(b: &Vec<u8>) -> (r: Option<NodeKey>)
    ensures
        match r {
            Some(k) => node_key_of_bytes(b@) == Some(k@),
            None => node_key_of_bytes(b@) is None,
        },
{
    if b.len() < 9 || b[0] != NODE_KEY_TAG || !all_nibbles(b, 9) {
        return None;
    }
    let version = read_be(b, 1, 8);
    let mut path: Vec<u8> = Vec::new();
    let mut i: usize = 9;
    while i < b.len()
        invariant
            9 <= i <= b@.len(),
            path@ == b@.subrange(9, i as int),
        decreases b@.len() - i,
    {
        path.push(b[i]);
        i += 1;
        proof {
            assert(path@ =~= b@.subrange(9, i as int));
        }
    }
    let k = NodeKey { version, path };
    proof {
        assert(node_key_of_bytes(b@) == Some(k@));
    }
    Some(k)
}

/// Decoding an encoded node key gives the key back.
pub proof fn lemma_node_key_round_trip(k: NodeKeyView)
    requires
        node_key_wf(k),
    ensures
        node_key_of_bytes(node_key_bytes(k)) == Some(k),
{
    let b = node_key_bytes(k);
    lemma_be_len(k.version as nat, 8);
    lemma_pow256_8();
    lemma_be_value_of_be(k.version as nat, 8);
    assert(b.subrange(1, 9) =~= be(k.version as nat, 8));
    assert(b.subrange(9, b.len() as int) =~= k.path);
}

// ---- nodes ----

pub open spec fn child_bytes(c: ChildView) -> Seq<u8> {
    seq![c.index] + be(c.version as nat, 8) + c.hash + seq![if c.is_leaf { 1u8 } else { 0u8 }]
}

pub open spec fn children_bytes(cs: Seq<ChildView>) -> Seq<u8>
    decreases cs.len(),
{
    if cs.len() == 0 {
        Seq::empty()
    } else {
        children_bytes(cs.drop_last()) + child_bytes(cs.last())
    }
}

pub open spec fn node_bytes(n: NodeView) -> Seq<u8> {
    match n {
        NodeView::Leaf { key_hash, value_hash } => seq![LEAF_TAG] + key_hash + value_hash,
        NodeView::Internal { children } => seq![INTERNAL_TAG] + children_bytes(children),
    }
}

pub open spec fn child_of_bytes(s: Seq<u8>) -> ChildView {
    ChildView {
        index: s[0],
        version: be_value(s.subrange(1, 9)) as u64,
        hash: s.subrange(9, 41),
        is_leaf: s[41] == 1,
    }
}

/// The `i`-th child block of an encoded internal node.
pub open spec fn child_block(b: Seq<u8>, i: int) -> Seq<u8> {
    b.subrange(1 + 42 * i, 1 + 42 * i + 42)
}

pub open spec fn children_of_bytes(b: Seq<u8>) -> Seq<ChildView> {
    Seq::new(((b.len() - 1) / 42) as nat, |i: int| child_of_bytes(child_block(b, i)))
}

pub open spec fn leaf_flags_valid(b: Seq<u8>) -> bool {
    forall|i: int| 0 <= i < (b.len() - 1) / 42 ==> #[trigger] child_block(b, i)[41] <= 1
}

pub open spec fn node_of_bytes(b: Seq<u8>) -> Option<NodeView> {
    if b.len() == 65 && b[0] == LEAF_TAG {
        Some(NodeView::Leaf { key_hash: b.subrange(1, 33), value_hash: b.subrange(33, 65) })
    } else if b.len() >= 1 && b[0] == INTERNAL_TAG && (b.len() - 1) % 42 == 0 && leaf_flags_valid(b)
        && children_wf(children_of_bytes(b)) {
        Some(NodeView::Internal { children: children_of_bytes(b) })
    } else {
        None
    }
}

proof fn lemma_child_bytes(c: ChildView)
    requires
        c.hash.len() == 32,
    ensures
        child_bytes(c).len() == 42,
        child_bytes(c)[41] <= 1,
        child_of_bytes(child_bytes(c)) == c,
{
    let s = child_bytes(c);
    lemma_be_len(c.version as nat, 8);
    lemma_pow256_8();
    lemma_be_value_of_be(c.version as nat, 8);
    assert(s.subrange(1, 9) =~= be(c.version as nat, 8));
    assert(s.subrange(9, 41) =~= c.hash);
}

proof fn lemma_children_bytes(cs: Seq<ChildView>, i: int)
    requires
        forall|j: int| 0 <= j < cs.len() ==> (#[trigger] cs[j]).hash.len() == 32,
        0 <= i < cs.len(),
    ensures
        children_bytes(cs).len() == 42 * cs.len(),
        children_bytes(cs).subrange(42 * i, 42 * i + 42) == child_bytes(cs[i]),
    decreases cs.len(),
{
    let p = cs.drop_last();
    lemma_child_bytes(cs.last());
    if p.len() > 0 {
        if i < p.len() {
            lemma_children_bytes(p, i);
        } else {
            lemma_children_bytes(p, 0);
        }
    }
    assert(children_bytes(cs) == children_bytes(p) + child_bytes(cs.last()));
    if i == cs.len() - 1 {
        assert(children_bytes(cs).subrange(42 * i, 42 * i + 42) =~= child_bytes(cs[i]));
    } else {
        assert(children_bytes(cs).subrange(42 * i, 42 * i + 42) =~= children_bytes(p).subrange(
            42 * i,
            42 * i + 42,
        ));
    }
}

/// Decoding an encoded well-formed node gives the node back.
pub proof fn lemma_node_round_trip(n: NodeView)
    requires
        node_wf(n),
    ensures
        node_of_bytes(node_bytes(n)) == Some(n),
{
    let b = node_bytes(n);
    match n {
        NodeView::Leaf { key_hash, value_hash } => {
            assert(b.subrange(1, 33) =~= key_hash);
            assert(b.subrange(33, 65) =~= value_hash);
        },
        NodeView::Internal { children } => {
            let cs = children;
            assert forall|j: int| 0 <= j < cs.len() implies (#[trigger] cs[j]).hash.len() == 32 by {
                assert(child_wf(cs[j]));
            }
            if cs.len() > 0 {
                lemma_children_bytes(cs, 0);
            } else {
                assert(children_bytes(cs) == Seq::<u8>::empty());
            }
            assert(b.len() == 1 + 42 * cs.len());
            assert((b.len() - 1) / 42 == cs.len()) by (nonlinear_arith)
                requires
                    b.len() == 1 + 42 * cs.len(),
            ;
            assert forall|i: int| 0 <= i < cs.len() implies child_block(b, i) == child_bytes(
                cs[i],
            ) by {
                lemma_children_bytes(cs, i);
                assert(child_block(b, i) =~= children_bytes(cs).subrange(42 * i, 42 * i + 42));
            }
            assert forall|i: int| 0 <= i < (b.len() - 1) / 42 implies #[trigger] child_block(b, i)[41]
                <= 1 by {
                lemma_child_bytes(cs[i]);
            }
            assert forall|i: int| 0 <= i < cs.len() implies #[trigger] children_of_bytes(b)[i]
                == cs[i] by {
                lemma_child_bytes(cs[i]);
            }
            assert(children_of_bytes(b) =~= cs);
        },
    }
}

fn push_child(out: &mut Vec<u8>, c: &Child)
    ensures
        final(out)@ == old(out)@ + child_bytes(c@),
{
    let ghost start = out@;
    out.push(c.index);
    push_be(out, c.version, 8);
    push_all(out, c.hash.as_slice());
    out.push(if c.is_leaf { 1u8 } else { 0u8 });
    proof {
        assert(out@ =~= start + child_bytes(c@));
    }
}

pub fn encode_node(n: &Node) -> (r: Vec<u8>)
    ensures
        r@ == node_bytes(n@),
{
    let mut out: Vec<u8> = Vec::new();
    match n {
        Node::Leaf(l) => {
            out.push(LEAF_TAG);
            push_all(&mut out, l.key_hash.0.as_slice());
            push_all(&mut out, l.value_hash.0.as_slice());
            proof {
                assert(out@ =~= node_bytes(n@));
            }
        },
        Node::Internal(cs) => {
            out.push(INTERNAL_TAG);
            let mut i: usize = 0;
            while i < cs.len()
                invariant
                    i <= cs@.len(),
                    out@ == seq![INTERNAL_TAG] + children_bytes(children_view(cs@.subrange(0, i as int))),
                decreases cs@.len() - i,
            {
                push_child(&mut out, &cs[i]);
                i += 1;
                proof {
                    let v = children_view(cs@.subrange(0, i as int));
                    assert(v.drop_last() =~= children_view(cs@.subrange(0, i - 1)));
                    assert(v.last() == cs@[i - 1]@);
                    assert(out@ =~= seq![INTERNAL_TAG] + children_bytes(v));
                }
            }
            proof {
                assert(cs@.subrange(0, cs@.len() as int) =~= cs@);
            }
        },
    }
    out
}

fn read_child(b: &Vec<u8>, p: usize) -> (r: Child)
    requires
        p + 42 <= b@.len(),
    ensures
        r.index == b@[p as int],
        r@.version == be_value(b@.subrange(p + 1, p + 9)),
        r@.hash == b@.subrange(p + 9, p + 41),
        r.is_leaf == (b@[p + 41] == 1),
{
    let len = b.len();
    let version = read_be(b, p + 1, 8);
    let hash = read_array32(b, p + 9);
    Child { index: b[p], version, hash, is_leaf: b[p + 41] == 1 }
}

pub fn decode_node(b: &Vec<u8>) -> (r: Option<Node>)
    ensures
        match r {
            Some(n) => node_of_bytes(b@) == Some(n@),
            None => node_of_bytes(b@) is None,
        },
{
    let len = b.len();
    if len == 0 {
        return None;
    }
    if len == 65 && b[0] == LEAF_TAG {
        let key_hash = read_array32(b, 1);
        let value_hash = read_array32(b, 33);
        let n = Node::Leaf(LeafNode { key_hash: KeyHash(key_hash), value_hash: ValueHash(value_hash) });
        return Some(n);
    }
    if b[0] != INTERNAL_TAG || (len - 1) % CHILD_LEN != 0 {
        return None;
    }
    let count = (len - 1) / CHILD_LEN;
    let ghost spec_cs = children_of_bytes(b@);
    let mut cs: Vec<Child> = Vec::new();
    let mut i: usize = 0;
    while i < count
        invariant
            len == b@.len(),
            len >= 1,
            b@[0] == INTERNAL_TAG,
            (len - 1) % 42 == 0,
            count == (len - 1) / 42,
            spec_cs == children_of_bytes(b@),
            i <= count,
            cs@.len() == i,
            forall|j: int| 0 <= j < i ==> #[trigger] cs@[j]@ == spec_cs[j],
            forall|j: int| 0 <= j < i ==> #[trigger] child_block(b@, j)[41] <= 1,
            children_wf(children_view(cs@)),
        decreases count - i,
    {
        assert(count * 42 + 1 == len) by (nonlinear_arith)
            requires
                count == (len - 1) / 42,
                (len - 1) % 42 == 0,
                len >= 1,
        ;
        assert(1 + 42 * i + 42 <= len) by (nonlinear_arith)
            requires
                i < count,
                count * 42 + 1 == len,
        ;
        let p = 1 + CHILD_LEN * i;
        let c = read_child(b, p);
        proof {
            let blk = child_block(b@, i as int);
            assert(blk =~= b@.subrange(p as int, p + 42));
            assert(blk.subrange(1, 9) =~= b@.subrange(p + 1, p + 9));
            assert(blk.subrange(9, 41) =~= b@.subrange(p + 9, p + 41));
            assert(c@ == spec_cs[i as int]);
        }
        if b[p + 41] > 1 {
            proof {
                assert(child_block(b@, i as int)[41] > 1);
            }
            return None;
        }
        if c.index >= 16 {
            proof {
                assert(!child_wf(spec_cs[i as int]));
            }
            return None;
        }
        if i > 0 && c.index <= cs[i - 1].index {
            proof {
                assert(cs@[i - 1]@ == spec_cs[i - 1]);
                assert(spec_cs[i - 1].index >= spec_cs[i as int].index);
            }
            return None;
        }
        let ghost old_cs = cs@;
        cs.push(c);
        i += 1;
        proof {
            let v = children_view(cs@);
            assert forall|j: int| 0 <= j < cs@.len() implies child_wf(#[trigger] v[j]) by {
                if j < i - 1 {
                    assert(v[j] == children_view(old_cs)[j]);
                }
            }
            assert forall|j: int, k: int| 0 <= j < k < cs@.len() implies v[j].index < v[k].index by {
                if k < i - 1 {
                    assert(v[j] == children_view(old_cs)[j]);
                    assert(v[k] == children_view(old_cs)[k]);
                } else if j < i - 2 {
                    assert(v[j] == children_view(old_cs)[j]);
                    assert(v[i - 2] == children_view(old_cs)[i - 2]);
                }
            }
            assert forall|j: int| 0 <= j < i implies #[trigger] cs@[j]@ == spec_cs[j] by {
                if j < i - 1 {
                    assert(cs@[j] == old_cs[j]);
                }
            }
        }
    }
    let n = Node::Internal(cs);
    proof {
        assert(children_view(cs@) =~= spec_cs);
        assert(node_of_bytes(b@) == Some(n@));
    }
    Some(n)
}

// ---- versioned value keys ----

pub open spec fn value_key_bytes(key_hash: Seq<u8>, version: u64) -> Seq<u8> {
    seq![VALUE_KEY_TAG] + key_hash + be(version as nat, 8)
}

pub open spec fn value_key_of_bytes(b: Seq<u8>) -> Option<(Seq<u8>, u64)> {
    if b.len() == 41 && b[0] == VALUE_KEY_TAG {
        Some((b.subrange(1, 33), be_value(b.subrange(33, 41)) as u64))
    } else {
        None
    }
}

pub fn encode_value_key(key_hash: &KeyHash, version: u64) -> (r: Vec<u8>)
    ensures
        r@ == value_key_bytes(key_hash.0@, version),
{
    let mut out: Vec<u8> = Vec::new();
    out.push(VALUE_KEY_TAG);
    push_all(&mut out, key_hash.0.as_slice());
    push_be(&mut out, version, 8);
    proof {
        assert(out@ =~= value_key_bytes(key_hash.0@, version));
    }
    out
}

pub fn decode_value_key(b: &Vec<u8>) -> (r: Option<(KeyHash, u64)>)
    ensures
        match r {
            Some((k, v)) => value_key_of_bytes(b@) == Some((k.0@, v)),
            None => value_key_of_bytes(b@) is None,
        },
{
    if b.len() != 41 || b[0] != VALUE_KEY_TAG {
        return None;
    }
    let k = read_array32(b, 1);
    let v = read_be(b, 33, 8);
    Some((KeyHash(k), v))
}

/// A value key decodes to a pair exactly when it is that pair's encoding.
pub proof fn lemma_value_key_codec(b: Seq<u8>, key_hash: Seq<u8>, version: u64)
    requires
        key_hash.len() == 32,
    ensures
        value_key_of_bytes(b) == Some((key_hash, version)) <==> b == value_key_bytes(
            key_hash,
            version,
        ),
{
    let e = value_key_bytes(key_hash, version);
    lemma_be_len(version as nat, 8);
    lemma_pow256_8();
    lemma_be_value_of_be(version as nat, 8);
    assert(e.subrange(1, 33) =~= key_hash);
    assert(e.subrange(33, 41) =~= be(version as nat, 8));
    if value_key_of_bytes(b) == Some((key_hash, version)) {
        let d = b.subrange(33, 41);
        lemma_be_value_bound(d);
        lemma_be_of_be_value(d);
        assert(b =~= seq![VALUE_KEY_TAG] + b.subrange(1, 33) + d);
    }
}

/// `a` sorts strictly before `b` in byte-lexicographic order.
pub open spec fn lex_lt(a: Seq<u8>, b: Seq<u8>) -> bool {
    ||| exists|i: int|
        0 <= i < a.len() && i < b.len() && a.subrange(0, i) == b.subrange(0, i) && a[i] < b[i]
    ||| a.len() < b.len() && a == b.subrange(0, a.len() as int)
}

proof fn lemma_be_lt(v1: nat, v2: nat, n: nat) -> (i: int)
    requires
        v1 < v2 < pow256(n),
    ensures
        0 <= i < n,
        be(v1, n).subrange(0, i) == be(v2, n).subrange(0, i),
        be(v1, n)[i] < be(v2, n)[i],
    decreases n,
{
    lemma_be_len(v1, n);
    lemma_be_len(v2, n);
    if n == 0 {
        assert(false);
        0
    } else {
        let m = (n - 1) as nat;
        let q1 = v1 / 256;
        let q2 = v2 / 256;
        lemma_be_len(q1, m);
        lemma_be_len(q2, m);
        assert(q1 <= q2 && q2 < pow256(m)) by (nonlinear_arith)
            requires
                v1 < v2 < 256 * pow256(m),
                q1 == v1 / 256,
                q2 == v2 / 256,
        ;
        if q1 < q2 {
            let i = lemma_be_lt(q1, q2, m);
            assert(be(v1, n).subrange(0, i) =~= be(q1, m).subrange(0, i));
            assert(be(v2, n).subrange(0, i) =~= be(q2, m).subrange(0, i));
            i
        } else {
            assert(v1 % 256 < v2 % 256) by (nonlinear_arith)
                requires
                    v1 < v2,
                    v1 / 256 == v2 / 256,
            ;
            assert(be(v1, n).subrange(0, m as int) =~= be(q1, m));
            assert(be(v2, n).subrange(0, m as int) =~= be(q2, m));
            m as int
        }
    }
}

/// For one content key, the encoded value key of an older version sorts
/// before that of a newer one.
pub proof fn lemma_value_key_order(key_hash: Seq<u8>, v1: u64, v2: u64)
    requires
        v1 < v2,
    ensures
        lex_lt(value_key_bytes(key_hash, v1), value_key_bytes(key_hash, v2)),
{
    lemma_pow256_8();
    let i = lemma_be_lt(v1 as nat, v2 as nat, 8);
    let p = seq![VALUE_KEY_TAG] + key_hash;
    let a = value_key_bytes(key_hash, v1);
    let b = value_key_bytes(key_hash, v2);
    lemma_be_len(v1 as nat, 8);
    lemma_be_len(v2 as nat, 8);
    let j = p.len() + i;
    assert(a.subrange(0, j) =~= p + be(v1 as nat, 8).subrange(0, i));
    assert(b.subrange(0, j) =~= p + be(v2 as nat, 8).subrange(0, i));
    assert(a[j] == be(v1 as nat, 8)[i]);
    assert(b[j] == be(v2 as nat, 8)[i]);
}

// ---- preimage keys ----

pub open spec fn preimage_key_bytes(key_hash: Seq<u8>) -> Seq<u8> {
    seq![PREIMAGE_KEY_TAG] + key_hash
}

pub fn encode_preimage_key(key_hash: &KeyHash) -> (r: Vec<u8>)
    ensures
        r@ == preimage_key_bytes(key_hash.0@),
{
    let mut out: Vec<u8> = Vec::new();
    out.push(PREIMAGE_KEY_TAG);
    push_all(&mut out, key_hash.0.as_slice());
    out
}

// ---- versioned payloads ----

/// A payload, or the tombstone that records a deletion.
pub open spec fn payload_bytes(p: Option<Seq<u8>>) -> Seq<u8> {
    match p {
        None => seq![TOMBSTONE_TAG],
        Some(v) => seq![PAYLOAD_TAG] + v,
    }
}

/// `None` where the bytes are no payload encoding.
pub open spec fn payload_of_bytes(b: Seq<u8>) -> Option<Option<Seq<u8>>> {
    if b.len() == 1 && b[0] == TOMBSTONE_TAG {
        Some(None)
    } else if b.len() >= 1 && b[0] == PAYLOAD_TAG {
        Some(Some(b.subrange(1, b.len() as int)))
    } else {
        None
    }
}

pub proof fn lemma_payload_round_trip(p: Option<Seq<u8>>)
    ensures
        payload_of_bytes(payload_bytes(p)) == Some(p),
{
    if let Some(v) = p {
        assert(payload_bytes(p).subrange(1, payload_bytes(p).len() as int) =~= v);
    }
}

pub open spec fn opt_view(p: Option<Vec<u8>>) -> Option<Seq<u8>> {
    match p {
        None => None,
        Some(v) => Some(v@),
    }
}

pub fn encode_payload(p: &Option<Vec<u8>>) -> (r: Vec<u8>)
    ensures
        r@ == payload_bytes(opt_view(*p)),
{
    let mut out: Vec<u8> = Vec::new();
    match p {
        None => out.push(TOMBSTONE_TAG),
        Some(v) => {
            out.push(PAYLOAD_TAG);
            push_all(&mut out, v.as_slice());
        },
    }
    proof {
        assert(out@ =~= payload_bytes(opt_view(*p)));
    }
    out
}

pub fn decode_payload(b: &Vec<u8>) -> (r: Option<Option<Vec<u8>>>)
    ensures
        match r {
            Some(p) => payload_of_bytes(b@) == Some(opt_view(p)),
            None => payload_of_bytes(b@) is None,
        },
{
    if b.len() == 1 && b[0] == TOMBSTONE_TAG {
        return Some(None);
    }
    if b.len() == 0 || b[0] != PAYLOAD_TAG {
        return None;
    }
    let mut v: Vec<u8> = Vec::new();
    let mut i: usize = 1;
    while i < b.len()
        invariant
            1 <= i <= b@.len(),
            v@ == b@.subrange(1, i as int),
        decreases b@.len() - i,
    {
        v.push(b[i]);
        i += 1;
        proof {
            assert(v@ =~= b@.subrange(1, i as int));
        }
    }
    Some(Some(v))
}

// ---- telling the namespaces apart ----

pub open spec fn preimage_key_of_bytes(b: Seq<u8>) -> Option<Seq<u8>> {
    if b.len() == 33 && b[0] == PREIMAGE_KEY_TAG {
        Some(b.subrange(1, 33))
    } else {
        None
    }
}

/// The namespace an engine key belongs to, with what it decodes to.
#[derive(Clone, Debug, PartialEq, Eq)]
pub enum KeyKind {
    Node(NodeKey),
    Value(KeyHash, u64),
    Preimage(KeyHash),
    Unknown,
}

/// Decodes an engine key in whichever namespace its tag names.
pub fn classify_key(b: &Vec<u8>) -> (r: KeyKind)
    ensures
        match r {
            KeyKind::Node(k) => node_key_of_bytes(b@) == Some(k@),
            KeyKind::Value(h, v) => value_key_of_bytes(b@) == Some((h.0@, v)),
            KeyKind::Preimage(h) => preimage_key_of_bytes(b@) == Some(h.0@),
            KeyKind::Unknown => node_key_of_bytes(b@) is None && value_key_of_bytes(b@) is None
                && preimage_key_of_bytes(b@) is None,
        },
{
    if let Some(k) = decode_node_key(b) {
        return KeyKind::Node(k);
    }
    if let Some((h, v)) = decode_value_key(b) {
        return KeyKind::Value(h, v);
    }
    if b.len() == 33 && b[0] == PREIMAGE_KEY_TAG {
        return KeyKind::Preimage(KeyHash(read_array32(b, 1)));
    }
    KeyKind::Unknown
}

/// No engine key decodes in two namespaces.
pub proof fn lemma_namespaces_disjoint(b: Seq<u8>)
    ensures
        !(node_key_of_bytes(b) is Some && value_key_of_bytes(b) is Some),
        !(node_key_of_bytes(b) is Some && preimage_key_of_bytes(b) is Some),
        !(value_key_of_bytes(b) is Some && preimage_key_of_bytes(b) is Some),
{
}

} // verus!
