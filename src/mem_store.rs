//! A tree store over the in-memory engine.

use crate::codec::{
    decode_value_key, encode_node_key, encode_preimage_key, lemma_value_key_codec, node_key_bytes,
    opt_view, preimage_key_bytes, value_key_bytes, value_key_of_bytes,
};
use crate::engine::{MemEngine, apply_puts, lookup};
use crate::store::{
    NodeBatch, StoreError, TreeUpdateBatch, array32_eq, batch_puts, batch_valid, encode_node_batch,
    node_from_bytes, node_from_stored, node_result_view, preimage_write_plan, value_from_bytes,
    value_from_stored, value_result_view,
};
use crate::types::{KeyHash, LeafNode, Node, NodeKey};
use crate::Version;
use vstd::prelude::*;

verus! {

/// The engine holds an entry for `key_hash` at `version`.
pub open spec fn has_version(m: Map<Seq<u8>, Seq<u8>>, key_hash: Seq<u8>, version: u64) -> bool {
    m.contains_key(value_key_bytes(key_hash, version))
}

/// `version` is the largest version at or before `max_version` with an
/// entry for `key_hash`.
pub open spec fn is_latest(
    m: Map<Seq<u8>, Seq<u8>>,
    key_hash: Seq<u8>,
    max_version: u64,
    version: u64,
) -> bool {
    &&& version <= max_version
    &&& has_version(m, key_hash, version)
    &&& forall|w: u64| version < w <= max_version ==> !has_version(m, key_hash, w)
}

/// The payload (or tombstone) of the latest entry at or before
/// `max_version`; `Ok(None)` where there is none.
pub open spec fn value_at(m: Map<Seq<u8>, Seq<u8>>, key_hash: Seq<u8>, max_version: u64) -> Result<
    Option<Option<Seq<u8>>>,
    StoreError,
> {
    if exists|v: u64| is_latest(m, key_hash, max_version, v) {
        let v = choose|v: u64| is_latest(m, key_hash, max_version, v);
        value_from_bytes(m[value_key_bytes(key_hash, v)])
    } else {
        Ok(None)
    }
}

/// The state and result of recording `bytes` as the preimage of `key_hash`.
pub open spec fn preimage_write(m: Map<Seq<u8>, Seq<u8>>, key_hash: Seq<u8>, bytes: Seq<u8>) -> (
    Map<Seq<u8>, Seq<u8>>,
    Result<(), StoreError>,
) {
    match lookup(m, preimage_key_bytes(key_hash)) {
        None => (m.insert(preimage_key_bytes(key_hash), bytes), Ok(())),
        Some(e) => if e == bytes {
            (m, Ok(()))
        } else {
            (m, Err(StoreError::IntegrityViolation))
        },
    }
}

/// Writing the same preimage twice succeeds and the second write changes
/// nothing; writing other bytes for a hash that has a preimage is an
/// integrity violation that changes nothing.
pub proof fn lemma_preimage_idempotent(
    m: Map<Seq<u8>, Seq<u8>>,
    key_hash: Seq<u8>,
    bytes: Seq<u8>,
    other: Seq<u8>,
)
    ensures
        preimage_write(m, key_hash, bytes).1 is Ok ==> preimage_write(
            preimage_write(m, key_hash, bytes).0,
            key_hash,
            bytes,
        ) == (preimage_write(m, key_hash, bytes).0, Ok::<(), StoreError>(())),
        other != bytes && preimage_write(m, key_hash, bytes).1 is Ok ==> preimage_write(
            preimage_write(m, key_hash, bytes).0,
            key_hash,
            other,
        ) == (preimage_write(m, key_hash, bytes).0, Err::<(), StoreError>(
            StoreError::IntegrityViolation,
        )),
{
}

pub proof fn lemma_latest_unique(
    m: Map<Seq<u8>, Seq<u8>>,
    key_hash: Seq<u8>,
    max_version: u64,
    a: u64,
    b: u64,
)
    requires
        is_latest(m, key_hash, max_version, a),
        is_latest(m, key_hash, max_version, b),
    ensures
        a == b,
{
}

/// A tree store whose engine lives in memory.
pub struct MemTreeStore {
    engine: MemEngine,
}

impl View for MemTreeStore {
    type V = Map<Seq<u8>, Seq<u8>>;

    closed spec fn view(&self) -> Map<Seq<u8>, Seq<u8>> {
        self.engine@
    }
}

impl MemTreeStore {
    pub closed spec fn wf(&self) -> bool {
        self.engine.wf()
    }

    pub fn new() -> (r: Self)
        ensures
            r.wf(),
            r@ == Map::<Seq<u8>, Seq<u8>>::empty(),
    {
        MemTreeStore { engine: MemEngine::new() }
    }

    /// The node stored under `node_key`; bytes that do not decode are
    /// corruption.
    pub fn get_node_option(&self, node_key: &NodeKey) -> (r: Result<Option<Node>, StoreError>)
        requires
            self.wf(),
        ensures
            node_result_view(r) == node_from_bytes(lookup(self@, node_key_bytes(node_key@))),
    {
        let key = encode_node_key(node_key);
        let stored = self.engine.get(&key);
        proof {
            assert(opt_view(stored) == lookup(self@, key@));
        }
        node_from_stored(stored)
    }

    /// No index of the rightmost leaf is kept: the answer is always "no
    /// information", which callers must not read as an empty tree.
    pub fn get_rightmost_leaf(&self) -> (r: Result<Option<(NodeKey, LeafNode)>, StoreError>)
        ensures
            r matches Ok(None),
    {
        Ok(None)
    }

    /// The payload, or tombstone, of the latest entry for `key_hash` at or
    /// before `max_version`; `Ok(None)` where there is no such entry.
    pub fn get_value_option(&self, max_version: Version, key_hash: KeyHash) -> (r: Result<
        Option<Option<Vec<u8>>>,
        StoreError,
    >)
        requires
            self.wf(),
        ensures
            value_result_view(r) == value_at(self@, key_hash.0@, max_version),
            r matches Ok(None) <==> !exists|v: u64|
                v <= max_version && has_version(self@, key_hash.0@, v),
    {
        let es = self.engine.entries();
        let ghost k = key_hash.0@;
        let mut best: Option<(u64, usize)> = None;
        let mut i: usize = 0;
        while i < es.len()
            invariant
                k == key_hash.0@,
                i <= es@.len(),
                match best {
                    Some((bv, bi)) => bi < i && value_key_of_bytes(es@[bi as int].0@) == Some(
                        (k, bv),
                    ) && bv <= max_version,
                    None => true,
                },
                forall|j: int|
                    0 <= j < i ==> match value_key_of_bytes(#[trigger] es@[j].0@) {
                        Some((h, v)) => h == k && v <= max_version ==> (best matches Some((bv, _))
                            && v <= bv),
                        None => true,
                    },
            decreases es@.len() - i,
        {
            let ghost prev = best;
            let dec = decode_value_key(&es[i].0);
            if let Some((h, v)) = dec {
                let same = array32_eq(h.0, key_hash.0);
                if same && v <= max_version {
                    let better = match best {
                        None => true,
                        Some((bv, _)) => v > bv,
                    };
                    if better {
                        best = Some((v, i));
                    }
                    assert(best matches Some((bv, _)) && v <= bv);
                } else {
                    assert(!(h.0@ == k && v <= max_version));
                }
            }
            proof {
                assert(match prev {
                    Some((pv, _)) => best matches Some((nv, _)) && pv <= nv,
                    None => true,
                });
                match dec {
                    Some((h, v)) => {
                        assert(value_key_of_bytes(es@[i as int].0@) == Some((h.0@, v)));
                        if h.0@ == k && v <= max_version {
                            assert(best matches Some((bv, _)) && v <= bv);
                        }
                    },
                    None => {
                        assert(value_key_of_bytes(es@[i as int].0@) is None);
                    },
                }
                assert forall|j: int|
                    0 <= j < i + 1 implies match value_key_of_bytes(#[trigger] es@[j].0@) {
                    Some((h, v)) => h == k && v <= max_version ==> (best matches Some((bv, _))
                        && v <= bv),
                    None => true,
                } by {
                    if j < i {
                        assert(match value_key_of_bytes(es@[j].0@) {
                            Some((h, v)) => h == k && v <= max_version ==> (prev matches Some((bv, _))
                                && v <= bv),
                            None => true,
                        });
                    }
                }
            }
            i += 1;
        }
        proof {
            assert forall|w: u64| w <= max_version && has_version(self@, k, w) implies (best matches Some(
                (bv, _),
            ) && w <= bv) by {
                let kb = value_key_bytes(k, w);
                let j = choose|j: int| 0 <= j < es@.len() && #[trigger] es@[j].0@ == kb;
                lemma_value_key_codec(kb, k, w);
            }
        }
        match best {
            None => Ok(None),
            Some((bv, bi)) => {
                proof {
                    let kb = es@[bi as int].0@;
                    lemma_value_key_codec(kb, k, bv);
                    assert(lookup(self@, kb) == Some(es@[bi as int].1@));
                    assert(is_latest(self@, k, max_version, bv));
                    let c = choose|v: u64| is_latest(self@, k, max_version, v);
                    lemma_latest_unique(self@, k, max_version, c, bv);
                }
                value_from_stored(&es[bi].1)
            },
        }
    }

    /// The preimage stored for `key_hash`.
    pub fn preimage(&self, key_hash: KeyHash) -> (r: Result<Option<Vec<u8>>, StoreError>)
        requires
            self.wf(),
        ensures
            r is Ok,
            opt_view(r->Ok_0) == lookup(self@, preimage_key_bytes(key_hash.0@)),
    {
        let key = encode_preimage_key(&key_hash);
        Ok(self.engine.get(&key))
    }

    /// Records the preimage of `key_hash`. Writing the bytes already stored
    /// changes nothing; writing other bytes is an integrity violation and
    /// changes nothing either.
    pub fn write_preimage(&mut self, key_hash: KeyHash, bytes: Vec<u8>) -> (r: Result<(), StoreError>)
        requires
            old(self).wf(),
        ensures
            final(self).wf(),
            (final(self)@, r) == preimage_write(old(self)@, key_hash.0@, bytes@),
    {
        let key = encode_preimage_key(&key_hash);
        let existing = self.engine.get(&key);
        let ghost kv = key@;
        let ghost bv = bytes@;
        match preimage_write_plan(&existing, &bytes) {
            Ok(true) => {
                let mut puts: Vec<(Vec<u8>, Vec<u8>)> = Vec::new();
                puts.push((key, bytes));
                self.engine.write_batch(puts);
                proof {
                    let pv = crate::engine::puts_view(puts@);
                    assert(pv.len() == 1);
                    assert(pv.last() == (kv, bv));
                    assert(pv.drop_last() =~= Seq::<(Seq<u8>, Seq<u8>)>::empty());
                    assert(apply_puts(old(self)@, pv.drop_last()) == old(self)@);
                }
                Ok(())
            },
            Ok(false) => Ok(()),
            Err(e) => Err(e),
        }
    }

    /// Writes every node and value of the batch as one atomic write, or,
    /// where a node or node key is not well formed, writes nothing.
    pub fn write_node_batch(&mut self, batch: &NodeBatch) -> (r: Result<(), StoreError>)
        requires
            old(self).wf(),
        ensures
            final(self).wf(),
            batch_valid(*batch) ==> r is Ok && final(self)@ == apply_puts(
                old(self)@,
                batch_puts(*batch),
            ),
            !batch_valid(*batch) ==> r == Err::<(), StoreError>(StoreError::InvalidNode)
                && final(self)@ == old(self)@,
    {
        match encode_node_batch(batch) {
            Ok(puts) => {
                self.engine.write_batch(puts);
                Ok(())
            },
            Err(e) => Err(e),
        }
    }

    /// Writes the node batch of a tree update; the stale-node indices are
    /// left to the pruning that consumes them.
    pub fn write_tree_update_batch(&mut self, batch: TreeUpdateBatch) -> (r: Result<(), StoreError>)
        requires
            old(self).wf(),
        ensures
            final(self).wf(),
            batch_valid(batch.node_batch) ==> r is Ok && final(self)@ == apply_puts(
                old(self)@,
                batch_puts(batch.node_batch),
            ),
            !batch_valid(batch.node_batch) ==> r == Err::<(), StoreError>(StoreError::InvalidNode)
                && final(self)@ == old(self)@,
    {
        self.write_node_batch(&batch.node_batch)
    }
}

} // verus!
