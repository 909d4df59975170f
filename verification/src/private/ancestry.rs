//! Giving a subtree a new ancestry: after a move every node below takes
//! its bare name from the new parent and starts its ratchet anew.

use vstd::prelude::*;
use std::rc::Rc;
use crate::assoc::{names, put, sorted, Name};
use crate::private::lineage::{lemma_rebased, world_at_commit};
use crate::entries::{entries_view, insert_entry};
use crate::error::{store_failed, FsError};
use crate::private::codec::namefilter_of;
use crate::private::entropy::{draw, Entropy};
use crate::private::forest::{forest_get, forest_set, stored_opens, ForestMap, PrivateForest};
use crate::private::namefilter::{added, Namefilter};
use crate::private::node::{
    private_ref_of, refs_view, saturated_name, PrivateDirModel, PrivateFileModel, PrivateNode,
    PrivateNodeHeader, PrivateNodeModel, PrivateRef,
};
use crate::private::ratchet::{ratchet_key, ratchet_zero};
use crate::store::{BlockStore, Blocks};

verus! {

/// The private tree and its surroundings as contracts thread them through
/// an operation: the forest, the blocks of the store and the source of
/// random values.
pub struct World {
    pub forest: ForestMap,
    pub blocks: Blocks,
    pub entropy: Entropy,
}

/// The bare name of a node with the identity `inumber` below a parent with
/// the bare name `parent`.
pub open spec fn bare_name_below(parent: Namefilter, inumber: crate::cid::HashOutput) -> Namefilter {
    namefilter_of(added(parent.bits@, inumber@))
}

/// A header with its bare name taken from a new parent and its ratchet
/// started anew from the next value of `entropy`.
pub open spec fn rebased_header(header: PrivateNodeHeader, parent: Namefilter, entropy: Entropy)
    -> PrivateNodeHeader {
    PrivateNodeHeader {
        inumber: header.inumber,
        ratchet: ratchet_zero(draw(entropy.seed, entropy.counter)@),
        bare_name: bare_name_below(parent, header.inumber),
    }
}

/// The world after a node is stored in the forest under its own saturated
/// name, for its own capability.
pub open spec fn committed(node: PrivateNodeModel, world: World) -> Result<World, FsError> {
    let header = node.header();
    match forest_set(
        world.forest,
        saturated_name(header.bare_name, ratchet_key(header.ratchet)),
        private_ref_of(header),
        node,
        world.blocks,
        world.entropy,
    ) {
        Err(e) => Err(e),
        Ok((forest, blocks, entropy)) => Ok(World { forest, blocks, entropy }),
    }
}

/// The node with a new ancestry, and the world after the node and every
/// node below it were stored anew. `fuel` bounds how many directories deep
/// the subtree is followed.
pub open spec fn rebased(node: PrivateNodeModel, parent: Namefilter, world: World, fuel: nat)
    -> Result<(PrivateNodeModel, World), FsError>
    decreases fuel, 0nat, 0nat,
{
    if fuel == 0 {
        Err(FsError::UnexpectedNodeType)
    } else {
        match node {
            PrivateNodeModel::File(file) => {
                let moved = PrivateNodeModel::File(
                    PrivateFileModel {
                        header: rebased_header(file.header, parent, world.entropy),
                        ..file
                    },
                );
                match committed(moved, World { entropy: world.entropy.advanced(), ..world }) {
                    Err(e) => Err(e),
                    Ok(after) => Ok((moved, after)),
                }
            },
            PrivateNodeModel::Dir(dir) => match rebased_entries(
                dir.entries,
                dir.entries,
                bare_name_below(parent, dir.header.inumber),
                world,
                (fuel - 1) as nat,
            ) {
                Err(e) => Err(e),
                Ok((entries, below)) => {
                    let moved = PrivateNodeModel::Dir(
                        PrivateDirModel {
                            header: rebased_header(dir.header, parent, below.entropy),
                            entries,
                            ..dir
                        },
                    );
                    match committed(moved, World { entropy: below.entropy.advanced(), ..below }) {
                        Err(e) => Err(e),
                        Ok(after) => Ok((moved, after)),
                    }
                },
            },
        }
    }
}

/// The entries `entries` after the child of each entry of `todo` got its
/// new ancestry and its new capability was written into the entries.
pub open spec fn rebased_entries(
    todo: Seq<(Name, PrivateRef)>,
    entries: Seq<(Name, PrivateRef)>,
    parent: Namefilter,
    world: World,
    fuel: nat,
) -> Result<(Seq<(Name, PrivateRef)>, World), FsError>
    decreases fuel, 1nat, todo.len(),
{
    if todo.len() == 0 {
        Ok((entries, world))
    } else {
        match forest_get(world.forest, todo[0].1, world.blocks) {
            Err(e) => Err(e),
            Ok(None) => Err(FsError::NotFound),
            Ok(Some(child)) => match rebased(child, parent, world, fuel) {
                Err(e) => Err(e),
                Ok((moved, after)) => rebased_entries(
                    todo.subrange(1, todo.len() as int),
                    put(entries, todo[0].0, private_ref_of(moved.header())),
                    parent,
                    after,
                    fuel,
                ),
            },
        }
    }
}

/// The world that a forest, a store and a source of random values make.
pub open spec fn world_of<B: BlockStore>(forest: &PrivateForest, store: &B, entropy: Entropy)
    -> World {
    World { forest: forest@, blocks: store.blocks(), entropy }
}

/// Stores a node in the forest under its own saturated name, for its own
/// capability.
pub fn commit<B: BlockStore>(
    node: &PrivateNode,
    forest: Rc<PrivateForest>,
    store: &mut B,
    entropy: &mut Entropy,
) -> (r: Result<Rc<PrivateForest>, FsError>)
    requires
        forest.wf(),
    ensures
        final(store).reliable() == old(store).reliable(),
        store_failed(r) && !old(store).reliable() || match r {
            Ok(after) => after.wf() && committed(
                node.model(),
                world_of(&forest, old(store), *old(entropy)),
            ) == Ok::<World, FsError>(world_of(&after, final(store), *final(entropy))),
            Err(e) => committed(node.model(), world_of(&forest, old(store), *old(entropy)))
                == Err::<World, FsError>(e),
        },
        r is Ok ==> stored_opens(
            node.model(),
            private_ref_of(node.model().header()),
            *old(entropy),
        ),
{
    let header = node.get_header();
    let private_ref = header.get_private_ref()?;
    let name = header.get_saturated_name();
    forest.set(name, &private_ref, node, store, entropy)
}

impl PrivateNode {

    /// Gives the node and every node below it a new ancestry below a parent
    /// with the bare name `parent_bare_name`, with random values drawn from
    /// `entropy`, and gives the forest in which they are stored anew.
    pub fn update_ancestry<B: BlockStore>(
        &mut self,
        parent_bare_name: Namefilter,
        forest: Rc<PrivateForest>,
        store: &mut B,
        entropy: &mut Entropy,
    ) -> (r: Result<Rc<PrivateForest>, FsError>)
        requires
            forest.wf(),
        ensures
            final(store).reliable() == old(store).reliable(),
            r is Err ==> *final(self) == *old(self),
            r is Ok && old(self).model() is Dir && sorted(old(self).model()->Dir_0.entries)
                ==> final(self).model() is Dir && sorted(final(self).model()->Dir_0.entries)
                && names(final(self).model()->Dir_0.entries) == names(
                old(self).model()->Dir_0.entries,
            ),
            store_failed(r) && !old(store).reliable() || match r {
                Ok(after) => after.wf() && rebased(
                    old(self).model(),
                    parent_bare_name,
                    world_of(&forest, old(store), *old(entropy)),
                    usize::MAX as nat,
                ) == Ok::<(PrivateNodeModel, World), FsError>(
                    (final(self).model(), world_of(&after, final(store), *final(entropy))),
                ),
                Err(e) => rebased(
                    old(self).model(),
                    parent_bare_name,
                    world_of(&forest, old(store), *old(entropy)),
                    usize::MAX as nat,
                ) == Err::<(PrivateNodeModel, World), FsError>(e),
            },
            r is Ok ==> stored_opens(
                final(self).model(),
                private_ref_of(final(self).model().header()),
                world_at_commit(
                    old(self).model(),
                    parent_bare_name,
                    world_of(&forest, old(store), *old(entropy)),
                    usize::MAX as nat,
                ).entropy,
            ),
    {
        self.update_ancestry_within(parent_bare_name, forest, store, entropy, usize::MAX)
    }

    /// Gives the node and every node below it a new ancestry below a parent
    /// with the bare name `parent_bare_name`, with random values drawn from
    /// `entropy`, and gives the forest in which they are stored anew. `fuel`
    /// bounds how many directories deep the subtree is followed.
    pub fn update_ancestry_within<B: BlockStore>(
        &mut self,
        parent_bare_name: Namefilter,
        forest: Rc<PrivateForest>,
        store: &mut B,
        entropy: &mut Entropy,
        fuel: usize,
    ) -> (r: Result<Rc<PrivateForest>, FsError>)
        requires
            forest.wf(),
        ensures
            final(store).reliable() == old(store).reliable(),
            r is Err ==> *final(self) == *old(self),
            r is Ok && old(self).model() is Dir && sorted(old(self).model()->Dir_0.entries)
                ==> final(self).model() is Dir && sorted(final(self).model()->Dir_0.entries)
                && names(final(self).model()->Dir_0.entries) == names(
                old(self).model()->Dir_0.entries,
            ),
            store_failed(r) && !old(store).reliable() || match r {
                Ok(after) => after.wf() && rebased(
                    old(self).model(),
                    parent_bare_name,
                    world_of(&forest, old(store), *old(entropy)),
                    fuel as nat,
                ) == Ok::<(PrivateNodeModel, World), FsError>(
                    (final(self).model(), world_of(&after, final(store), *final(entropy))),
                ),
                Err(e) => rebased(
                    old(self).model(),
                    parent_bare_name,
                    world_of(&forest, old(store), *old(entropy)),
                    fuel as nat,
                ) == Err::<(PrivateNodeModel, World), FsError>(e),
            },
            r is Ok ==> stored_opens(
                final(self).model(),
                private_ref_of(final(self).model().header()),
                world_at_commit(
                    old(self).model(),
                    parent_bare_name,
                    world_of(&forest, old(store), *old(entropy)),
                    fuel as nat,
                ).entropy,
            ),
        decreases fuel, 0nat, 0nat,
    {
        if fuel == 0 {
            return Err(FsError::UnexpectedNodeType);
        }
        let ghost start = world_of(&forest, store, *entropy);
        let (moved, working) = match self {
            PrivateNode::File(file) => {
                let mut file = file.copy();
                file.header.update_bare_name(parent_bare_name);
                file.header.reset_ratchet(entropy);
                proof {
                    lemma_namefilter_of(file.header.bare_name);
                }
                (PrivateNode::File(Rc::new(file)), forest)
            },
            PrivateNode::Dir(old_dir) => {
                let mut dir = old_dir.copy();
                let mut new_bare_name = parent_bare_name;
                new_bare_name.add(dir.header.inumber.as_slice());
                proof {
                    lemma_namefilter_of(new_bare_name);
                    assert(refs_view(dir.entries@) =~= entries_view(dir.entries@));
                }
                let working = rebase_children(
                    &old_dir.entries,
                    &mut dir.entries,
                    new_bare_name,
                    forest,
                    store,
                    entropy,
                    fuel - 1,
                )?;
                dir.header.update_bare_name(parent_bare_name);
                dir.header.reset_ratchet(entropy);
                proof {
                    lemma_namefilter_of(dir.header.bare_name);
                    assert(refs_view(dir.entries@) =~= entries_view(dir.entries@));
                }
                (PrivateNode::Dir(Rc::new(dir)), working)
            },
        };
        let after = commit(&moved, working, store, entropy)?;
        *self = moved;
        proof {
            lemma_rebased(old(self).model(), parent_bare_name, start, fuel as nat);
        }
        Ok(after)
    }
}

/// A name filter is the name filter of its bits.
pub proof fn lemma_namefilter_of(filter: Namefilter)
    ensures
        namefilter_of(filter.bits@) == filter,
{
    let chosen = namefilter_of(filter.bits@);
    assert(chosen.bits@ == filter.bits@);
    assert(chosen.bits =~= filter.bits);
}

/// Gives the child of each entry of `todo` its new ancestry and writes its
/// new capability into `entries`.
fn rebase_children<B: BlockStore>(
    todo: &Vec<(String, PrivateRef)>,
    entries: &mut Vec<(String, PrivateRef)>,
    parent_bare_name: Namefilter,
    forest: Rc<PrivateForest>,
    store: &mut B,
    entropy: &mut Entropy,
    fuel: usize,
) -> (r: Result<Rc<PrivateForest>, FsError>)
    requires
        forest.wf(),
    ensures
        final(store).reliable() == old(store).reliable(),
        store_failed(r) && !old(store).reliable() || match r {
            Ok(after) => after.wf() && rebased_entries(
                entries_view(todo@),
                entries_view(old(entries)@),
                parent_bare_name,
                world_of(&forest, old(store), *old(entropy)),
                fuel as nat,
            ) == Ok::<(Seq<(Name, PrivateRef)>, World), FsError>(
                (entries_view(final(entries)@), world_of(&after, final(store), *final(entropy))),
            ),
            Err(e) => rebased_entries(
                entries_view(todo@),
                entries_view(old(entries)@),
                parent_bare_name,
                world_of(&forest, old(store), *old(entropy)),
                fuel as nat,
            ) == Err::<(Seq<(Name, PrivateRef)>, World), FsError>(e),
        },
    decreases fuel, 1nat, todo.len(),
{
    let ghost all = entries_view(todo@);
    let ghost goal = rebased_entries(
        all,
        entries_view(entries@),
        parent_bare_name,
        world_of(&forest, store, *entropy),
        fuel as nat,
    );
    let mut working = forest;
    let mut i: usize = 0;
    proof {
        assert(all.subrange(0, all.len() as int) =~= all);
    }
    while i < todo.len()
        invariant
            i <= todo.len(),
            all == entries_view(todo@),
            working.wf(),
            store.reliable() == old(store).reliable(),
            goal == rebased_entries(
                all,
                entries_view(old(entries)@),
                parent_bare_name,
                world_of(&forest, old(store), *old(entropy)),
                fuel as nat,
            ),
            goal == rebased_entries(
                all.subrange(i as int, all.len() as int),
                entries_view(entries@),
                parent_bare_name,
                world_of(&working, store, *entropy),
                fuel as nat,
            ),
        decreases todo.len() - i,
    {
        let ghost rest = all.subrange(i as int, all.len() as int);
        proof {
            assert(rest[0] == all[i as int]);
            assert(rest.subrange(1, rest.len() as int) =~= all.subrange(i + 1, all.len() as int));
        }
        let mut node = match working.get(&todo[i].1, store)? {
            Some(node) => node,
            None => {
                return Err(FsError::NotFound);
            },
        };
        working = node.update_ancestry_within(parent_bare_name, working, store, entropy, fuel)?;
        let private_ref = node.get_header().get_private_ref()?;
        insert_entry(entries, todo[i].0.clone(), private_ref);
        i += 1;
    }
    Ok(working)
}

} // verus!
