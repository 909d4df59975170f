//! The private forest: the index from the hash of a node's saturated name
//! to the address of the node's encrypted block.

use vstd::prelude::*;
use std::rc::Rc;
use crate::assoc::sorted;
use crate::cid::{Cid, HashOutput, CODEC_RAW};
use crate::error::{store_failed, FsError};
use crate::hash::{hash, sha3_256_digest};
use crate::private::codec::{header_opens, node_bytes, node_of_bytes};
use crate::private::entropy::{draw, nonce_of, Entropy};
use crate::private::hamt_remove::Hamt;
use crate::private::key::{cipher_result, decrypted, encrypted, Key};
use crate::private::namefilter::{packed, Namefilter};
use crate::private::node::{PrivateNode, PrivateNodeModel, PrivateRef};
use crate::store::{block_cid, fetch, BlockStore, Blocks};

verus! {

/// What a forest holds: the address under each hash.
pub type ForestMap = Map<HashOutput, Cid>;

/// The private forest.
#[derive(Debug, PartialEq)]
pub struct PrivateForest {
    pub root: Hamt,
}

/// The hash under which a saturated name is indexed.
pub open spec fn name_hash(name: Seq<bool>) -> HashOutput {
    sha3_256_digest(packed(name))
}

/// The block that a node is stored as: the node written as bytes, with the
/// nonce `header_nonce` for its header, and encrypted under the content key
/// with the nonce `body_nonce`.
pub open spec fn sealed_node(
    node: PrivateNodeModel,
    private_ref: PrivateRef,
    header_nonce: Seq<u8>,
    body_nonce: Seq<u8>,
) -> Result<Seq<u8>, FsError> {
    match node_bytes(node, header_nonce) {
        Err(e) => Err(e),
        Ok(bytes) => cipher_result(encrypted(private_ref.content_key.0, body_nonce, bytes)),
    }
}

/// Whether the block that a node is stored as for a capability, with
/// nonces drawn from `entropy`, opens under the content key of the
/// capability to the bytes that the node was written as.
pub open spec fn block_opens(node: PrivateNodeModel, private_ref: PrivateRef, entropy: Entropy)
    -> bool {
    let key = private_ref.content_key.0;
    let header_nonce = nonce_of(draw(entropy.seed, entropy.counter));
    let body_nonce = nonce_of(draw(entropy.advanced().seed, entropy.advanced().counter));
    node_bytes(node, header_nonce) matches Ok(bytes) && encrypted(key, body_nonce, bytes) matches Some(
        blob,
    ) && decrypted(key, blob) == Some(bytes)
}

/// Whether what is sealed when a node is stored for a capability opens
/// again: the header under the key of the node's ratchet, and the block
/// under the content key of the capability.
pub open spec fn stored_opens(node: PrivateNodeModel, private_ref: PrivateRef, entropy: Entropy)
    -> bool {
    header_opens(node.header(), nonce_of(draw(entropy.seed, entropy.counter))) && block_opens(
        node,
        private_ref,
        entropy,
    )
}

/// The forest, the blocks and the source of random values after a node is
/// stored under a saturated name for a capability.
pub open spec fn forest_set(
    forest: ForestMap,
    name: Seq<bool>,
    private_ref: PrivateRef,
    node: PrivateNodeModel,
    blocks: Blocks,
    entropy: Entropy,
) -> Result<(ForestMap, Blocks, Entropy), FsError> {
    match sealed_node(
        node,
        private_ref,
        nonce_of(draw(entropy.seed, entropy.counter)),
        nonce_of(draw(entropy.advanced().seed, entropy.advanced().counter)),
    ) {
        Err(e) => Err(e),
        Ok(blob) => Ok(
            (
                forest.insert(name_hash(name), block_cid(CODEC_RAW, blob)),
                blocks.insert(block_cid(CODEC_RAW, blob), blob),
                entropy.advanced().advanced(),
            ),
        ),
    }
}

/// The node that a capability leads to: `None` where the forest has no
/// entry for it, the node of the block where the block decrypts under the
/// content key and holds a node whose header the ratchet key opens.
pub open spec fn forest_get(forest: ForestMap, private_ref: PrivateRef, blocks: Blocks) -> Result<
    Option<PrivateNodeModel>,
    FsError,
> {
    if !forest.contains_key(private_ref.saturated_name_hash) {
        Ok(None)
    } else {
        match fetch(blocks, forest[private_ref.saturated_name_hash]) {
            Err(e) => Err(e),
            Ok(blob) => match decrypted(private_ref.content_key.0, blob) {
                None => Err(FsError::Decrypt),
                Some(bytes) => match node_of_bytes(bytes, private_ref.ratchet_key) {
                    Err(e) => Err(e),
                    Ok(node) => Ok(Some(node)),
                },
            },
        }
    }
}

/// A result that may hold a private node, as contracts see it.
pub open spec fn option_node_result(r: Result<Option<PrivateNode>, FsError>) -> Result<
    Option<PrivateNodeModel>,
    FsError,
> {
    match r {
        Ok(Some(node)) => Ok(Some(node.model())),
        Ok(None) => Ok(None),
        Err(e) => Err(e),
    }
}

impl PrivateForest {
    /// The index is a well-formed trie.
    pub open spec fn wf(&self) -> bool {
        self.root.wf()
    }

    /// What the forest holds.
    pub open spec fn view(&self) -> ForestMap {
        Map::new(
            |hash: HashOutput| self.root.lookup(hash) is Some,
            |hash: HashOutput| self.root.lookup(hash)->0,
        )
    }

    /// Makes an empty forest.
    pub fn new() -> (r: PrivateForest)
        ensures
            r.wf(),
            r@ == ForestMap::empty(),
    {
        let r = PrivateForest { root: Hamt::new() };
        proof {
            assert(r@ =~= ForestMap::empty());
        }
        r
    }

    /// Encrypts `data` under a key, with a nonce drawn from `entropy`.
    pub fn encrypt(key: &Key, data: &[u8], entropy: &mut Entropy) -> (r: Result<Vec<u8>, FsError>)
        ensures
            crate::store::bytes_result(r) == cipher_result(
                encrypted(*key, nonce_of(draw(old(entropy).seed, old(entropy).counter)), data@),
            ),
            r matches Ok(blob) ==> decrypted(*key, blob@) == Some(data@),
            *final(entropy) == old(entropy).advanced(),
    {
        let nonce = entropy.next_nonce();
        key.encrypt(&nonce, data)
    }

    /// Stores an address under the hash of a saturated name and gives the
    /// new forest.
    pub fn set_encrypted<B: BlockStore>(
        self: Rc<Self>,
        name: Namefilter,
        value: Cid,
        store: &mut B,
    ) -> (r: Result<Rc<Self>, FsError>)
        requires
            self.wf(),
        ensures
            *final(store) == *old(store),
            r matches Ok(forest) && forest.wf() && forest@ == self@.insert(
                name_hash(name.bits@),
                value,
            ),
    {
        let key = hash(name.to_bytes().as_slice());
        let root = self.root.set(key, value);
        let forest = PrivateForest { root };
        proof {
            assert forall|h: HashOutput| forest.root.lookup(h) == if h == key {
                Some(value)
            } else {
                self.root.lookup(h)
            } by {}
            assert(forest@ =~= self@.insert(key, value));
        }
        Ok(Rc::new(forest))
    }

    /// Gets the address under a hash.
    pub fn get_encrypted<B: BlockStore>(&self, name_hash: &HashOutput, store: &B) -> (r: Result<
        Option<Cid>,
        FsError,
    >)
        ensures
            r matches Ok(found) && found == if self@.contains_key(*name_hash) {
                Some(self@[*name_hash])
            } else {
                None
            },
    {
        Ok(self.root.get_by_hash(name_hash))
    }

    /// Tells whether the forest has an entry under a hash.
    pub fn has<B: BlockStore>(&self, saturated_name_hash: &HashOutput, store: &B) -> (r: Result<
        bool,
        FsError,
    >)
        ensures
            r == Ok::<bool, FsError>(self@.contains_key(*saturated_name_hash)),
    {
        Ok(self.root.get_by_hash(saturated_name_hash).is_some())
    }

    /// Takes the entry under a hash out of the forest and gives the new
    /// forest with the address that was there. The block stays in the store.
    pub fn remove_encrypted<B: BlockStore>(
        self: Rc<Self>,
        name_hash: &HashOutput,
        store: &mut B,
    ) -> (r: Result<(Rc<Self>, Option<Cid>), FsError>)
        requires
            self.wf(),
        ensures
            *final(store) == *old(store),
            r matches Ok((forest, found)) && forest.wf() && forest@ == self@.remove(*name_hash)
                && found == if self@.contains_key(*name_hash) {
                Some(self@[*name_hash])
            } else {
                None
            },
    {
        let (root, removed) = self.root.remove_by_hash(name_hash);
        let forest = PrivateForest { root };
        proof {
            assert forall|h: HashOutput| forest.root.lookup(h) == if h == *name_hash {
                None
            } else {
                self.root.lookup(h)
            } by {}
            assert(forest@ =~= self@.remove(*name_hash));
        }
        let found = match removed {
            Some(pair) => Some(pair.value),
            None => None,
        };
        Ok((Rc::new(forest), found))
    }

    /// Stores a node for a capability under a saturated name and gives the
    /// new forest, with nonces drawn from `entropy`. The node is written as
    /// bytes, encrypted under the content key, and put into the store as a
    /// raw block.
    pub fn set<B: BlockStore>(
        self: Rc<Self>,
        saturated_name: Namefilter,
        private_ref: &PrivateRef,
        value: &PrivateNode,
        store: &mut B,
        entropy: &mut Entropy,
    ) -> (r: Result<Rc<Self>, FsError>)
        requires
            self.wf(),
        ensures
            final(store).reliable() == old(store).reliable(),
            store_failed(r) && !old(store).reliable() || match r {
                Ok(forest) => forest.wf() && forest_set(
                    self@,
                    saturated_name.bits@,
                    *private_ref,
                    value.model(),
                    old(store).blocks(),
                    *old(entropy),
                ) == Ok::<(ForestMap, Blocks, Entropy), FsError>(
                    (forest@, final(store).blocks(), *final(entropy)),
                ),
                Err(e) => forest_set(
                    self@,
                    saturated_name.bits@,
                    *private_ref,
                    value.model(),
                    old(store).blocks(),
                    *old(entropy),
                ) == Err::<(ForestMap, Blocks, Entropy), FsError>(e),
            },
            r is Ok ==> stored_opens(value.model(), *private_ref, *old(entropy)),
    {
        let cbor_bytes = value.serialize_to_cbor(entropy)?;
        let enc_bytes = Self::encrypt(&private_ref.content_key.0, cbor_bytes.as_slice(), entropy)?;
        let ghost blob = enc_bytes@;
        let content_cid = store.put_block(enc_bytes, CODEC_RAW)?;
        let r = self.set_encrypted(saturated_name, content_cid, store);
        proof {
            assert(decrypted(private_ref.content_key.0, blob) == Some(cbor_bytes@));
        }
        r
    }

    /// Gets the node that a capability leads to: fetches the block whose
    /// address stands under the capability's hash, decrypts it under the
    /// content key and reads the node, its header with the ratchet key.
    pub fn get<B: BlockStore>(&self, private_ref: &PrivateRef, store: &B) -> (r: Result<
        Option<PrivateNode>,
        FsError,
    >)
        ensures
            option_node_result(r) == forest_get(self@, *private_ref, store.blocks()) || (
            store_failed(r) && !store.reliable() && self@.contains_key(
                private_ref.saturated_name_hash,
            )),
            r matches Ok(Some(PrivateNode::Dir(dir))) ==> sorted(dir.model().entries),
    {
        let cid = match self.root.get_by_hash(&private_ref.saturated_name_hash) {
            Some(value) => value,
            None => {
                return Ok(None);
            },
        };
        let enc_bytes = store.get_block(&cid)?;
        let cbor_bytes = private_ref.content_key.0.decrypt(enc_bytes.as_slice())?;
        let node = PrivateNode::deserialize_from_cbor(
            cbor_bytes.as_slice(),
            &private_ref.ratchet_key,
        )?;
        Ok(Some(node))
    }
}

} // verus!
