//! What holds of the names of nodes: a node that the library makes or
//! moves carries the bare name of its parent with its own identity added,
//! and a move keeps what the nodes hold.

use vstd::prelude::*;
use crate::assoc::{
    has_name, lemma_put_at, lemma_put_sorted, lemma_slot_exists, names, put, sorted, Name,
};
use crate::cid::HashOutput;
use crate::error::FsError;
use crate::order::lemma_name_order;
use crate::private::ancestry::{bare_name_below, committed, rebased, rebased_entries, World};
use crate::private::codec::namefilter_of;
use crate::private::entropy::{draw, nonce_of, Entropy};
use crate::private::round_trip::{lemma_stored_node_is_found, survives};
use crate::private::forest::forest_get;
use crate::private::namefilter::{added, Namefilter};
use crate::private::node::{private_ref_of, PrivateDirModel, PrivateNodeModel, PrivateRef};
use crate::private::path::{created_from, fresh_dir, fresh_header, PrivatePathModel};

verus! {

/// The array whose first `k` bits are the first `k` of `bits`.
pub open spec fn bits_array(bits: Seq<bool>, k: int) -> [bool; 2048]
    decreases k,
{
    if k <= 0 {
        vstd::array::spec_array_fill_for_copy_type::<bool, 2048>(false)
    } else {
        vstd::array::spec_array_update(bits_array(bits, k - 1), k - 1, bits[k - 1])
    }
}

/// The first `k` bits of `bits_array(bits, k)` are the first `k` of `bits`.
pub proof fn lemma_bits_array(bits: Seq<bool>, k: int)
    requires
        0 <= k <= 2048,
    ensures
        forall|i: int| 0 <= i < k ==> bits_array(bits, k)@[i] == bits[i],
    decreases k,
{
    broadcast use vstd::array::axiom_spec_array_update;
    broadcast use vstd::array::array_len_matches_n;

    if k > 0 {
        lemma_bits_array(bits, k - 1);
        let before = bits_array(bits, k - 1);
        assert(bits_array(bits, k)@ == before@.update(k - 1, bits[k - 1]));
    }
}

/// There is a name filter for every 2048 bits.
pub proof fn lemma_namefilter_of_bits(bits: Seq<bool>)
    requires
        bits.len() == 2048,
    ensures
        namefilter_of(bits).bits@ == bits,
{
    broadcast use vstd::array::array_len_matches_n;

    lemma_bits_array(bits, 2048);
    let filter = Namefilter { bits: bits_array(bits, 2048) };
    assert(filter.bits@ =~= bits);
}

/// The bare name of a node below a parent is the bare name of the parent
/// with the identity of the node added.
pub proof fn lemma_bare_name_below(parent: Namefilter, inumber: HashOutput)
    ensures
        bare_name_below(parent, inumber).bits@ == added(parent.bits@, inumber@),
{
    broadcast use vstd::array::array_len_matches_n;

    lemma_namefilter_of_bits(added(parent.bits@, inumber@));
}

/// A new node carries the bare name of its parent with its own identity
/// added.
pub proof fn lemma_fresh_header_below(parent: Namefilter, entropy: Entropy)
    ensures
        fresh_header(parent, entropy).bare_name.bits@ == added(
            parent.bits@,
            fresh_header(parent, entropy).inumber@,
        ),
{
    lemma_bare_name_below(parent, fresh_header(parent, entropy).inumber);
}

/// Whether a directory carries the bare name `parent` with its own
/// identity added.
pub open spec fn is_below(dir: PrivateDirModel, parent: Namefilter) -> bool {
    dir.header.bare_name.bits@ == added(parent.bits@, dir.header.inumber@)
}

/// The directory at a step of path nodes; the tail after the last step.
pub open spec fn dir_at(p: PrivatePathModel, i: int) -> PrivateDirModel {
    if 0 <= i < p.path.len() {
        p.path[i].0
    } else {
        p.tail
    }
}

/// Whether the directory at a step carries the bare name of the directory
/// at the step before, with its own identity added.
pub open spec fn hangs_below(p: PrivatePathModel, i: int) -> bool {
    is_below(dir_at(p, i), dir_at(p, i - 1).header.bare_name)
}

/// A new directory carries the bare name of its parent with its own
/// identity added.
pub proof fn lemma_fresh_dir_below(parent: Namefilter, time: i64, entropy: Entropy)
    ensures
        is_below(fresh_dir(parent, time, entropy), parent),
{
    lemma_fresh_header_below(parent, entropy);
}

/// Of the directories that are made along a path, the first carries the
/// bare name of the parent it was made below, and every other the bare
/// name of the directory before it, each with its own identity added. The
/// steps that were there before stay as they were.
pub proof fn lemma_created_below(
    done: Seq<(PrivateDirModel, Name)>,
    rest: Seq<Name>,
    parent: Namefilter,
    time: i64,
    entropy: Entropy,
)
    ensures
        ({
            let p = created_from(done, rest, parent, time, entropy).0;
            &&& p.path.len() == done.len() + rest.len()
            &&& forall|i: int| 0 <= i < done.len() ==> p.path[i] == done[i]
            &&& is_below(dir_at(p, done.len() as int), parent)
            &&& forall|i: int| done.len() < i <= p.path.len() ==> #[trigger] hangs_below(p, i)
        }),
    decreases rest.len(),
{
    let dir = fresh_dir(parent, time, entropy);
    lemma_fresh_dir_below(parent, time, entropy);
    if rest.len() > 0 {
        let left = entropy.advanced().advanced();
        let next = done.push((dir, rest[0]));
        lemma_created_below(next, rest.drop_first(), dir.header.bare_name, time, left);
        let p = created_from(done, rest, parent, time, entropy).0;
        assert(p == created_from(next, rest.drop_first(), dir.header.bare_name, time, left).0);
        assert(p.path[done.len() as int] == next[done.len() as int]);
        assert forall|i: int| 0 <= i < done.len() implies p.path[i] == done[i] by {
            assert(p.path[i] == next[i]);
        }
        assert forall|i: int| done.len() < i <= p.path.len() implies #[trigger] hangs_below(
            p,
            i,
        ) by {
            if i == done.len() + 1 {
                assert(dir_at(p, i - 1) == dir);
                assert(is_below(dir_at(p, next.len() as int), dir.header.bare_name));
            } else {
                assert(hangs_below(p, i));
            }
        }
    }
}

/// Binding a name that sorted entries hold keeps their names.
pub proof fn lemma_put_keeps_names<M>(entries: Seq<(Name, M)>, name: Name, value: M)
    requires
        sorted(entries),
        has_name(entries, name),
    ensures
        names(put(entries, name, value)) == names(entries),
        sorted(put(entries, name, value)),
{
    let i = lemma_slot_exists(entries, name);
    let at = choose|at: int| 0 <= at < entries.len() && #[trigger] entries[at].0 == name;
    if at < i {
        lemma_name_order(entries[at].0, name, name);
    }
    if i < at {
        lemma_name_order(name, entries[i].0, entries[at].0);
        lemma_name_order(entries[i].0, entries[at].0, name);
    }
    lemma_put_at(entries, name, value, i);
    lemma_put_sorted(entries, name, value);
    assert(names(put(entries, name, value)) =~= names(entries));
}

/// The entries of a directory keep their names when the nodes below get
/// a new ancestry.
pub proof fn lemma_rebased_entries_names(
    todo: Seq<(Name, PrivateRef)>,
    entries: Seq<(Name, PrivateRef)>,
    parent: Namefilter,
    world: World,
    fuel: nat,
)
    requires
        sorted(entries),
        forall|i: int| 0 <= i < todo.len() ==> has_name(entries, (#[trigger] todo[i]).0),
        rebased_entries(todo, entries, parent, world, fuel) is Ok,
    ensures
        names(rebased_entries(todo, entries, parent, world, fuel)->Ok_0.0) == names(entries),
        sorted(rebased_entries(todo, entries, parent, world, fuel)->Ok_0.0),
    decreases todo.len(),
{
    if todo.len() > 0 {
        let child = forest_get(world.forest, todo[0].1, world.blocks)->Ok_0->0;
        let (moved, after) = rebased(child, parent, world, fuel)->Ok_0;
        let rest = todo.subrange(1, todo.len() as int);
        let next = put(entries, todo[0].0, private_ref_of(moved.header()));
        lemma_put_keeps_names(entries, todo[0].0, private_ref_of(moved.header()));
        assert forall|i: int| 0 <= i < rest.len() implies has_name(next, (#[trigger] rest[i]).0) by {
            assert(rest[i] == todo[i + 1]);
            let at = choose|at: int|
                0 <= at < entries.len() && #[trigger] entries[at].0 == todo[i + 1].0;
            assert(names(next).len() == names(entries).len());
            assert(names(next)[at] == names(entries)[at]);
            assert(names(next)[at] == next[at].0);
            assert(next[at].0 == rest[i].0);
        }
        lemma_rebased_entries_names(rest, next, parent, after, fuel);
    }
}

/// A node that got a new ancestry keeps its identity, its version, its
/// metadata and its kind; a file keeps its content and a directory with
/// sorted entries the names of its entries. It carries the bare name of
/// its new parent with its identity added, and the forest holds an entry
/// for its new capability.
pub proof fn lemma_rebased(node: PrivateNodeModel, parent: Namefilter, world: World, fuel: nat)
    requires
        rebased(node, parent, world, fuel) is Ok,
    ensures
        ({
            let (moved, after) = rebased(node, parent, world, fuel)->Ok_0;
            &&& moved.header().inumber == node.header().inumber
            &&& moved.header().bare_name.bits@ == added(parent.bits@, node.header().inumber@)
            &&& moved.metadata() == node.metadata()
            &&& after.forest.contains_key(private_ref_of(moved.header()).saturated_name_hash)
            &&& match node {
                PrivateNodeModel::File(file) => moved is File && moved->File_0.content
                    == file.content && moved->File_0.version == file.version,
                PrivateNodeModel::Dir(dir) => moved is Dir && moved->Dir_0.version == dir.version
                    && (sorted(dir.entries) ==> sorted(moved->Dir_0.entries) && names(
                    moved->Dir_0.entries,
                ) == names(dir.entries)),
            }
        }),
{
    lemma_bare_name_below(parent, node.header().inumber);
    match node {
        PrivateNodeModel::File(file) => {},
        PrivateNodeModel::Dir(dir) => {
            if sorted(dir.entries) {
                assert forall|i: int| 0 <= i < dir.entries.len() implies has_name(
                    dir.entries,
                    (#[trigger] dir.entries[i]).0,
                ) by {}
                lemma_rebased_entries_names(
                    dir.entries,
                    dir.entries,
                    bare_name_below(parent, dir.header.inumber),
                    world,
                    (fuel - 1) as nat,
                );
            }
        },
    }
}

/// The world in which a node is stored once it has its new ancestry: for
/// a directory, the world that storing the nodes below it has left; in
/// both cases after the value that starts the ratchet anew was drawn.
pub open spec fn world_at_commit(
    node: PrivateNodeModel,
    parent: Namefilter,
    world: World,
    fuel: nat,
) -> World {
    match node {
        PrivateNodeModel::File(_) => World { entropy: world.entropy.advanced(), ..world },
        PrivateNodeModel::Dir(dir) => {
            let below = rebased_entries(
                dir.entries,
                dir.entries,
                bare_name_below(parent, dir.header.inumber),
                world,
                (fuel - 1) as nat,
            )->Ok_0.1;
            World { entropy: below.entropy.advanced(), ..below }
        },
    }
}

/// A node that got a new ancestry is found in the new forest under its
/// new capability, where it passes through the cipher and the codec
/// unchanged.
pub proof fn lemma_rebased_is_found(
    node: PrivateNodeModel,
    parent: Namefilter,
    world: World,
    fuel: nat,
)
    requires
        rebased(node, parent, world, fuel) is Ok,
        survives(
            rebased(node, parent, world, fuel)->Ok_0.0,
            nonce_of(
                draw(
                    world_at_commit(node, parent, world, fuel).entropy.seed,
                    world_at_commit(node, parent, world, fuel).entropy.counter,
                ),
            ),
            nonce_of(
                draw(
                    world_at_commit(node, parent, world, fuel).entropy.advanced().seed,
                    world_at_commit(node, parent, world, fuel).entropy.advanced().counter,
                ),
            ),
        ),
    ensures
        forest_get(
            rebased(node, parent, world, fuel)->Ok_0.1.forest,
            private_ref_of(rebased(node, parent, world, fuel)->Ok_0.0.header()),
            rebased(node, parent, world, fuel)->Ok_0.1.blocks,
        ) == Ok::<Option<PrivateNodeModel>, FsError>(Some(rebased(node, parent, world, fuel)->Ok_0.0)),
{
    let moved = rebased(node, parent, world, fuel)->Ok_0.0;
    let at = world_at_commit(node, parent, world, fuel);
    lemma_stored_node_is_found(moved, at.forest, at.blocks, at.entropy);
    assert(at == World { forest: at.forest, blocks: at.blocks, entropy: at.entropy });
    assert(committed(moved, at) == Ok::<World, FsError>(rebased(node, parent, world, fuel)->Ok_0.1));
}

} // verus!
