//! Finding the latest version of a node that the forest holds.

use vstd::prelude::*;
use skip_ratchet::{Ratchet, RatchetSeeker};
use crate::error::{store_failed, FsError};
use crate::private::codec::private_node_result;
use crate::private::forest::{forest_get, ForestMap, PrivateForest};
use crate::private::node::{
    private_ref_of, PrivateNode, PrivateNodeHeader, PrivateNodeModel,
};
use crate::private::ratchet::{
    current, duplicate, seeker_current, seeker_new, seeker_start, seeker_stepped, step, Jump,
};
use crate::private::round_trip::in_order;
use crate::store::{BlockStore, Blocks};

verus! {

/// The header of the version of a node at a ratchet.
pub open spec fn header_at(header: PrivateNodeHeader, ratchet: Ratchet) -> PrivateNodeHeader {
    PrivateNodeHeader { inumber: header.inumber, ratchet, bare_name: header.bare_name }
}

/// Whether the forest holds the version of a node at a ratchet.
pub open spec fn present(header: PrivateNodeHeader, ratchet: Ratchet, forest: ForestMap) -> bool {
    forest.contains_key(private_ref_of(header_at(header, ratchet)).saturated_name_hash)
}

/// The search after it asked, step by step, whether the forest holds the
/// version it stands at, until it says that it is done or `fuel` steps were
/// made.
pub open spec fn sought(
    seeker: RatchetSeeker,
    header: PrivateNodeHeader,
    forest: ForestMap,
    fuel: nat,
) -> RatchetSeeker
    decreases fuel,
{
    if fuel == 0 {
        seeker
    } else {
        let stepped = seeker_stepped(seeker, present(header, seeker_current(seeker), forest));
        if stepped.1 {
            sought(stepped.0, header, forest, (fuel - 1) as nat)
        } else {
            stepped.0
        }
    }
}

/// The latest version of a node: the node itself where the forest does not
/// hold its version; else the node at the ratchet where the search ends.
pub open spec fn latest(node: PrivateNodeModel, forest: ForestMap, blocks: Blocks, fuel: nat)
    -> Result<PrivateNodeModel, FsError> {
    let header = node.header();
    if !present(header, header.ratchet, forest) {
        Ok(node)
    } else {
        let found = sought(seeker_start(header.ratchet, Jump::Small), header, forest, fuel);
        match forest_get(forest, private_ref_of(header_at(header, seeker_current(found))), blocks) {
            Err(e) => Err(e),
            Ok(None) => Err(FsError::NotFound),
            Ok(Some(latest)) => Ok(latest),
        }
    }
}

/// What a search for the latest version gives is the node itself, where
/// the forest does not hold its version, and else a node that the forest
/// holds for the capability of the node at some step of its ratchet.
pub proof fn lemma_latest_is_held(
    node: PrivateNodeModel,
    forest: ForestMap,
    blocks: Blocks,
    fuel: nat,
    found: PrivateNodeModel,
)
    requires
        latest(node, forest, blocks, fuel) == Ok::<PrivateNodeModel, FsError>(found),
    ensures
        !present(node.header(), node.header().ratchet, forest) ==> found == node,
        present(node.header(), node.header().ratchet, forest) ==> exists|ratchet: Ratchet|
            forest_get(forest, private_ref_of(#[trigger] header_at(node.header(), ratchet)), blocks)
                == Ok::<Option<PrivateNodeModel>, FsError>(Some(found)),
{
    let header = node.header();
    if present(header, header.ratchet, forest) {
        let end = seeker_current(sought(seeker_start(header.ratchet, Jump::Small), header, forest, fuel));
        assert(forest_get(forest, private_ref_of(header_at(header, end)), blocks) == Ok::<
            Option<PrivateNodeModel>,
            FsError,
        >(Some(found)));
    }
}

impl PrivateNode {
    /// Gets the latest version of the node that the forest holds, by a
    /// search over the node's ratchet: the search jumps ahead while the
    /// forest holds the version it stands at, and back when it does not.
    pub fn search_latest<B: BlockStore>(&self, forest: &PrivateForest, store: &B) -> (r: Result<
        PrivateNode,
        FsError,
    >)
        ensures
            !present(self.model().header(), self.model().header().ratchet, forest@)
                ==> private_node_result(r) == Ok::<PrivateNodeModel, FsError>(self.model()),
            in_order(self.model()) && r is Ok ==> in_order(r->Ok_0.model()),
            private_node_result(r) == latest(
                self.model(),
                forest@,
                store.blocks(),
                usize::MAX as nat,
            ) || (store_failed(r) && !store.reliable() && present(
                self.model().header(),
                self.model().header().ratchet,
                forest@,
            )),
    {
        let header = self.get_header();
        let private_ref = header.get_private_ref()?;
        if !forest.has(&private_ref.saturated_name_hash, store)? {
            return Ok(self.clone());
        }
        let mut search = seeker_new(duplicate(&header.ratchet), Jump::Small);
        let mut current_header = header.copy();
        let mut fuel: usize = usize::MAX;
        let mut going = true;
        let ghost goal = sought(seeker_start(header.ratchet, Jump::Small), *header, forest@, usize::MAX as nat);
        while going && fuel > 0
            invariant
                current_header.inumber == header.inumber,
                current_header.bare_name == header.bare_name,
                goal == if going {
                    sought(search, *header, forest@, fuel as nat)
                } else {
                    search
                },
            decreases fuel,
        {
            current_header.ratchet = current(&search);
            proof {
                assert(current_header == header_at(*header, seeker_current(search)));
            }
            let probe = current_header.get_private_ref()?;
            let has_curr = forest.has(&probe.saturated_name_hash, store)?;
            going = step(&mut search, has_curr);
            fuel -= 1;
        }
        current_header.ratchet = current(&search);
        proof {
            assert(current_header == header_at(*header, seeker_current(goal)));
        }
        let latest_private_ref = current_header.get_private_ref()?;
        match forest.get(&latest_private_ref, store)? {
            Some(node) => Ok(node),
            None => Err(FsError::NotFound),
        }
    }
}

} // verus!
