//! The node, versioned-value and preimage stores, and the batch assembler.

use crate::bytes::bytes_eq;
use crate::codec::{
    decode_node, decode_payload, decode_value_key, encode_node, encode_node_key, encode_payload,
    encode_value_key, lemma_node_key_round_trip, lemma_node_round_trip, lemma_payload_round_trip,
    lemma_value_key_codec, node_bytes, node_key_bytes, node_of_bytes, opt_view, payload_bytes,
    payload_of_bytes, value_key_bytes, value_key_of_bytes,
};
use crate::engine::{apply_puts, lemma_apply_puts, lookup, puts_view};
use crate::types::{
    KeyHash, Node, NodeKey, NodeView, child_wf, children_view, children_wf, node_key_wf, node_wf,
};
use crate::Version;
use vstd::prelude::*;

verus! {

/// Why a store operation failed.
#[derive(Clone, Copy, Debug, PartialEq, Eq, Structural)]
pub enum StoreError {
    /// Bytes are present but do not decode.
    Corruption,
    /// The underlying engine reported an error.
    EngineFailure,
    /// A preimage write names a hash that already has other bytes.
    IntegrityViolation,
    /// A batch holds a node or node key that is not well formed.
    InvalidNode,
}

/// The writes of one tree update: nodes by key, and payloads (or
/// tombstones, `None`) by version and content key.
#[derive(Clone, Debug)]
pub struct NodeBatch {
    pub nodes: Vec<(NodeKey, Node)>,
    pub values: Vec<((Version, KeyHash), Option<Vec<u8>>)>,
}

/// A node made stale by the update at `stale_since_version`.
#[derive(Clone, Debug)]
pub struct StaleNodeIndex {
    pub stale_since_version: Version,
    pub node_key: NodeKey,
}

/// A node batch with the stale-node bookkeeping kept for pruning.
#[derive(Clone, Debug)]
pub struct TreeUpdateBatch {
    pub node_batch: NodeBatch,
    pub stale_node_index_batch: Vec<StaleNodeIndex>,
}

pub open spec fn node_puts(nodes: Seq<(NodeKey, Node)>) -> Seq<(Seq<u8>, Seq<u8>)> {
    nodes.map_values(|p: (NodeKey, Node)| (node_key_bytes(p.0@), node_bytes(p.1@)))
}

pub open spec fn value_puts(values: Seq<((Version, KeyHash), Option<Vec<u8>>)>) -> Seq<
    (Seq<u8>, Seq<u8>),
> {
    values.map_values(
        |p: ((Version, KeyHash), Option<Vec<u8>>)|
            (value_key_bytes((p.0).1.0@, (p.0).0), payload_bytes(opt_view(p.1))),
    )
}

/// The engine writes of a batch: every node, then every value.
pub open spec fn batch_puts(b: NodeBatch) -> Seq<(Seq<u8>, Seq<u8>)> {
    node_puts(b.nodes@) + value_puts(b.values@)
}

pub open spec fn batch_valid(b: NodeBatch) -> bool {
    forall|i: int|
        0 <= i < b.nodes@.len() ==> node_key_wf((#[trigger] b.nodes@[i]).0@) && node_wf(
            b.nodes@[i].1@,
        )
}

pub fn node_key_is_wf(k: &NodeKey) -> (r: bool)
    ensures
        r == node_key_wf(k@),
{
    let mut i: usize = 0;
    while i < k.path.len()
        invariant
            i <= k.path@.len(),
            forall|j: int| 0 <= j < i ==> k.path@[j] < 16,
        decreases k.path@.len() - i,
    {
        if k.path[i] >= 16 {
            return false;
        }
        i += 1;
    }
    true
}

pub fn node_is_wf(n: &Node) -> (r: bool)
    ensures
        r == node_wf(n@),
{
    match n {
        Node::Leaf(_) => true,
        Node::Internal(cs) => {
            let ghost v = children_view(cs@);
            let mut i: usize = 0;
            while i < cs.len()
                invariant
                    v == children_view(cs@),
                    node_wf(n@) == children_wf(v),
                    i <= cs@.len(),
                    forall|j: int| 0 <= j < i ==> #[trigger] v[j].index < 16,
                    forall|a: int, b: int| 0 <= a < b < i ==> v[a].index < v[b].index,
                decreases cs@.len() - i,
            {
                if cs[i].index >= 16 {
                    proof {
                        assert(v[i as int].index >= 16);
                        assert(!child_wf(v[i as int]));
                    }
                    return false;
                }
                if i > 0 && cs[i].index <= cs[i - 1].index {
                    proof {
                        assert(v[i - 1].index >= v[i as int].index);
                        assert(!(v[i - 1].index < v[i as int].index));
                    }
                    return false;
                }
                proof {
                    assert(v[i as int].index == cs@[i as int].index);
                    if i > 0 {
                        assert(v[i - 1].index == cs@[i - 1].index);
                        assert forall|a: int, b: int| 0 <= a < b < i + 1 implies v[a].index
                            < v[b].index by {
                            if b == i && a < i - 1 {
                                assert(v[a].index < v[i - 1].index);
                            }
                        }
                    }
                }
                i += 1;
            }
            proof {
                assert forall|j: int| 0 <= j < v.len() implies child_wf(#[trigger] v[j]) by {
                    assert(v[j].hash == cs@[j].hash@);
                }
            }
            true
        },
    }
}

/// Encodes every write of the batch, or fails before any write is formed.
pub fn encode_node_batch(b: &NodeBatch) -> (r: Result<Vec<(Vec<u8>, Vec<u8>)>, StoreError>)
    ensures
        batch_valid(*b) ==> r is Ok && puts_view(r->Ok_0@) == batch_puts(*b),
        !batch_valid(*b) ==> r == Err::<Vec<(Vec<u8>, Vec<u8>)>, StoreError>(
            StoreError::InvalidNode,
        ),
{
    let mut out: Vec<(Vec<u8>, Vec<u8>)> = Vec::new();
    let mut i: usize = 0;
    while i < b.nodes.len()
        invariant
            i <= b.nodes@.len(),
            puts_view(out@) == node_puts(b.nodes@.subrange(0, i as int)),
            forall|j: int|
                0 <= j < i ==> node_key_wf((#[trigger] b.nodes@[j]).0@) && node_wf(
                    b.nodes@[j].1@,
                ),
        decreases b.nodes@.len() - i,
    {
        let (k, n) = (&b.nodes[i].0, &b.nodes[i].1);
        if !node_key_is_wf(k) || !node_is_wf(n) {
            return Err(StoreError::InvalidNode);
        }
        let kb = encode_node_key(k);
        let nb = encode_node(n);
        let ghost prev = out@;
        let ghost e = (kb@, nb@);
        out.push((kb, nb));
        i += 1;
        proof {
            assert(puts_view(out@) =~= puts_view(prev).push(e));
            assert(node_puts(b.nodes@.subrange(0, i as int)) =~= node_puts(
                b.nodes@.subrange(0, i - 1),
            ).push(e));
        }
    }
    proof {
        assert(b.nodes@.subrange(0, i as int) =~= b.nodes@);
    }
    let mut j: usize = 0;
    while j < b.values.len()
        invariant
            i == b.nodes@.len(),
            batch_valid(*b),
            j <= b.values@.len(),
            puts_view(out@) == node_puts(b.nodes@) + value_puts(b.values@.subrange(0, j as int)),
        decreases b.values@.len() - j,
    {
        let kb = encode_value_key(&b.values[j].0.1, b.values[j].0.0);
        let vb = encode_payload(&b.values[j].1);
        let ghost prev = out@;
        let ghost e = (kb@, vb@);
        out.push((kb, vb));
        j += 1;
        proof {
            assert(puts_view(out@) =~= puts_view(prev).push(e));
            assert(value_puts(b.values@.subrange(0, j as int)) =~= value_puts(
                b.values@.subrange(0, j - 1),
            ).push(e));
            assert(puts_view(out@) =~= node_puts(b.nodes@) + value_puts(
                b.values@.subrange(0, j as int),
            ));
        }
    }
    proof {
        assert(b.values@.subrange(0, j as int) =~= b.values@);
    }
    Ok(out)
}

pub open spec fn node_result_view(r: Result<Option<Node>, StoreError>) -> Result<
    Option<NodeView>,
    StoreError,
> {
    match r {
        Ok(Some(n)) => Ok(Some(n@)),
        Ok(None) => Ok(None),
        Err(e) => Err(e),
    }
}

/// What a node lookup returns for the bytes the engine holds under the key.
pub open spec fn node_from_bytes(stored: Option<Seq<u8>>) -> Result<Option<NodeView>, StoreError> {
    match stored {
        None => Ok(None),
        Some(b) => match node_of_bytes(b) {
            Some(n) => Ok(Some(n)),
            None => Err(StoreError::Corruption),
        },
    }
}

/// Decodes the bytes stored under a node key; undecodable bytes are
/// corruption, never absence.
pub fn node_from_stored(stored: Option<Vec<u8>>) -> (r: Result<Option<Node>, StoreError>)
    ensures
        node_result_view(r) == node_from_bytes(opt_view(stored)),
{
    match stored {
        None => Ok(None),
        Some(b) => match decode_node(&b) {
            Some(n) => Ok(Some(n)),
            None => Err(StoreError::Corruption),
        },
    }
}

pub open spec fn value_result_view(r: Result<Option<Option<Vec<u8>>>, StoreError>) -> Result<
    Option<Option<Seq<u8>>>,
    StoreError,
> {
    match r {
        Ok(Some(p)) => Ok(Some(opt_view(p))),
        Ok(None) => Ok(None),
        Err(e) => Err(e),
    }
}

/// What a value lookup returns for the payload bytes of the entry it found.
pub open spec fn value_from_bytes(b: Seq<u8>) -> Result<Option<Option<Seq<u8>>>, StoreError> {
    match payload_of_bytes(b) {
        Some(p) => Ok(Some(p)),
        None => Err(StoreError::Corruption),
    }
}

/// The result of a latest-version lookup, given the entry that a reverse
/// seek from the value key of (`key_hash`, `max_version`) found in an
/// engine ordered by key bytes: the entry is the key's latest at or before
/// `max_version` exactly when it is a value key of `key_hash`.
pub open spec fn value_from_floor(
    key_hash: Seq<u8>,
    max_version: u64,
    found: Option<(Seq<u8>, Seq<u8>)>,
) -> Result<Option<Option<Seq<u8>>>, StoreError> {
    match found {
        Some((k, v)) => match value_key_of_bytes(k) {
            Some((h, ver)) => if h == key_hash && ver <= max_version {
                value_from_bytes(v)
            } else {
                Ok(None)
            },
            None => Ok(None),
        },
        None => Ok(None),
    }
}

pub fn array32_eq(a: [u8; 32], b: [u8; 32]) -> (r: bool)
    ensures
        r == (a@ == b@),
{
    let mut i: usize = 0;
    while i < 32
        invariant
            i <= 32,
            a@.len() == 32,
            b@.len() == 32,
            forall|j: int| 0 <= j < i ==> a@[j] == b@[j],
        decreases 32 - i,
    {
        if a[i] != b[i] {
            return false;
        }
        i += 1;
    }
    proof {
        assert(a@ =~= b@);
    }
    true
}

/// Decodes a payload; undecodable bytes are corruption.
pub fn value_from_stored(b: &Vec<u8>) -> (r: Result<Option<Option<Vec<u8>>>, StoreError>)
    ensures
        value_result_view(r) == value_from_bytes(b@),
{
    match decode_payload(b) {
        Some(p) => Ok(Some(p)),
        None => Err(StoreError::Corruption),
    }
}

/// The latest-version answer from the entry that a reverse seek found.
pub fn value_from_seek(key_hash: &KeyHash, max_version: Version, found: Option<(Vec<u8>, Vec<u8>)>) -> (r: Result<Option<Option<Vec<u8>>>, StoreError>)
    ensures
        value_result_view(r) == value_from_floor(
            key_hash.0@,
            max_version,
            match found {
                Some(e) => Some((e.0@, e.1@)),
                None => None,
            },
        ),
{
    match found {
        None => Ok(None),
        Some((k, v)) => match decode_value_key(&k) {
            Some((h, ver)) => {
                if array32_eq(h.0, key_hash.0) && ver <= max_version {
                    value_from_stored(&v)
                } else {
                    Ok(None)
                }
            },
            None => Ok(None),
        },
    }
}

/// Decides a preimage write against the bytes already stored for the hash:
/// `Ok(true)` to write, `Ok(false)` when the same bytes are there, and an
/// integrity violation when other bytes are.
pub fn preimage_write_plan(existing: &Option<Vec<u8>>, bytes: &Vec<u8>) -> (r: Result<
    bool,
    StoreError,
>)
    ensures
        match opt_view(*existing) {
            None => r == Ok::<bool, StoreError>(true),
            Some(e) => if e == bytes@ {
                r == Ok::<bool, StoreError>(false)
            } else {
                r == Err::<bool, StoreError>(StoreError::IntegrityViolation)
            },
        },
{
    match existing {
        None => Ok(true),
        Some(e) => if bytes_eq(e, bytes) {
            Ok(false)
        } else {
            Err(StoreError::IntegrityViolation)
        },
    }
}

/// One batch makes all of its writes visible together: after its puts, a
/// node whose key no later node of the batch repeats reads back as that
/// node, and a value whose (version, key) no later value repeats reads back
/// as that payload or tombstone.
pub proof fn lemma_batch_visible(m: Map<Seq<u8>, Seq<u8>>, b: NodeBatch, i: int, j: int)
    requires
        batch_valid(b),
        0 <= i < b.nodes@.len(),
        forall|i2: int| i < i2 < b.nodes@.len() ==> b.nodes@[i2].0@ != b.nodes@[i].0@,
        0 <= j < b.values@.len(),
        forall|j2: int|
            j < j2 < b.values@.len() ==> ((b.values@[j2].0).0, (b.values@[j2].0).1.0@) != (
                (b.values@[j].0).0,
                (b.values@[j].0).1.0@,
            ),
    ensures
        node_from_bytes(lookup(apply_puts(m, batch_puts(b)), node_key_bytes(b.nodes@[i].0@)))
            == Ok::<Option<NodeView>, StoreError>(Some(b.nodes@[i].1@)),
        value_from_bytes(
            lookup(
                apply_puts(m, batch_puts(b)),
                value_key_bytes((b.values@[j].0).1.0@, (b.values@[j].0).0),
            )->Some_0,
        ) == Ok::<Option<Option<Seq<u8>>>, StoreError>(Some(opt_view(b.values@[j].1))),
        lookup(
            apply_puts(m, batch_puts(b)),
            value_key_bytes((b.values@[j].0).1.0@, (b.values@[j].0).0),
        ) is Some,
{
    let puts = batch_puts(b);
    let nn = b.nodes@.len();
    let nk = node_key_bytes(b.nodes@[i].0@);
    let vk = value_key_bytes((b.values@[j].0).1.0@, (b.values@[j].0).0);
    assert(batch_valid(b) ==> node_key_wf(b.nodes@[i].0@));
    assert forall|q: int| i < q < puts.len() implies puts[q].0 != nk by {
        if q < nn {
            let kq = b.nodes@[q].0@;
            assert(node_key_wf(b.nodes@[q].0@));
            lemma_node_key_round_trip(kq);
            lemma_node_key_round_trip(b.nodes@[i].0@);
            assert(puts[q].0 == node_key_bytes(kq));
        } else {
            let e = b.values@[q - nn];
            assert(puts[q].0 == value_key_bytes(e.0.1.0@, e.0.0));
            assert(puts[q].0[0] != nk[0]);
        }
    }
    lemma_apply_puts(m, puts, nk);
    assert(puts[i] == (nk, node_bytes(b.nodes@[i].1@)));
    lemma_node_round_trip(b.nodes@[i].1@);
    let jj = nn + j;
    assert forall|q: int| jj < q < puts.len() implies puts[q].0 != vk by {
        let e = b.values@[q - nn];
        assert(puts[q].0 == value_key_bytes(e.0.1.0@, e.0.0));
        assert(e.0.1.0@.len() == 32);
        lemma_value_key_codec(puts[q].0, e.0.1.0@, e.0.0);
        lemma_value_key_codec(vk, (b.values@[j].0).1.0@, (b.values@[j].0).0);
        assert(((b.values@[q - nn].0).0, (b.values@[q - nn].0).1.0@) != (
            (b.values@[j].0).0,
            (b.values@[j].0).1.0@,
        ));
    }
    lemma_apply_puts(m, puts, vk);
    assert(puts[jj] == (vk, payload_bytes(opt_view(b.values@[j].1))));
    lemma_payload_round_trip(opt_view(b.values@[j].1));
}

} // verus!
