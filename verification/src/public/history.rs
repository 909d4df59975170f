//! Storing the public tree, and chaining a tree to the version it derives
//! from.

use vstd::prelude::*;
use std::rc::Rc;
use crate::assoc::{find, put, Name};
use crate::cid::{Cid, CODEC_DAG_CBOR};
use crate::entries::{insert_entry, position};
use crate::error::{store_failed, FsError};
use crate::ipld::{dag_cbor_encoding, encode, Value, ValueModel};
use crate::public::codec::{dir_to_value, dir_value, file_to_value, file_value, links_view};
use crate::public::in_order::lemma_based_on_wf;
use crate::public::node::{
    userland_model, DirModel, LinkModel, NodeModel, PublicDirectory, PublicFile, PublicLink,
    PublicNode, PublicOpResult,
};
use crate::public::path::{lemma_userland_find, lemma_userland_put, resolve};
use crate::same_handle;
use crate::store::{block_cid, BlockStore, Blocks};

verus! {

/// What storing a value as a DAG-CBOR block gives: its address and the
/// blocks with the new block among them, or an error where the value
/// cannot be encoded.
pub open spec fn stored_value(value: ValueModel, blocks: Blocks) -> (Result<Cid, FsError>, Blocks) {
    match dag_cbor_encoding(value) {
        Some(bytes) => (
            Ok(block_cid(CODEC_DAG_CBOR, bytes)),
            blocks.insert(block_cid(CODEC_DAG_CBOR, bytes), bytes),
        ),
        None => (Err(FsError::UnexpectedNodeType), blocks),
    }
}

/// What storing the node behind a link gives. A link by address stores
/// nothing.
pub open spec fn stored_link(link: LinkModel, blocks: Blocks) -> (Result<Cid, FsError>, Blocks)
    decreases link,
{
    match link {
        LinkModel::Encoded(cid) => (Ok(cid), blocks),
        LinkModel::Decoded(node) => stored_node(node, blocks),
    }
}

/// What storing a node gives.
pub open spec fn stored_node(node: NodeModel, blocks: Blocks) -> (Result<Cid, FsError>, Blocks)
    decreases node,
{
    match node {
        NodeModel::File(file) => stored_value(file_value(file), blocks),
        NodeModel::Dir(dir) => stored_dir(dir, blocks),
    }
}

/// What storing a directory gives: the nodes below it are stored first, in
/// the order of their names.
pub open spec fn stored_dir(dir: DirModel, blocks: Blocks) -> (Result<Cid, FsError>, Blocks)
    decreases dir,
{
    match stored_entries(dir.userland, Seq::empty(), blocks) {
        (Ok(links), after) => stored_value(dir_value(dir.metadata, links, dir.previous), after),
        (Err(e), after) => (Err(e), after),
    }
}

/// What storing the nodes behind the entries `todo` gives, after the
/// entries with the addresses `done`.
pub open spec fn stored_entries(todo: Seq<(Name, LinkModel)>, done: Seq<(Name, Cid)>, blocks: Blocks)
    -> (Result<Seq<(Name, Cid)>, FsError>, Blocks)
    decreases todo,
{
    if todo.len() == 0 {
        (Ok(done), blocks)
    } else {
        match stored_link(todo[0].1, blocks) {
            (Ok(cid), after) => stored_entries(
                todo.subrange(1, todo.len() as int),
                done.push((todo[0].0, cid)),
                after,
            ),
            (Err(e), after) => (Err(e), after),
        }
    }
}

/// Whether two links lead to the same content: whether storing the nodes
/// behind them gives the same address.
pub open spec fn deep_equal(a: LinkModel, b: LinkModel, blocks: Blocks) -> (
    Result<bool, FsError>,
    Blocks,
) {
    match stored_link(a, blocks) {
        (Err(e), after) => (Err(e), after),
        (Ok(x), after) => match stored_link(b, after) {
            (Err(e), last) => (Err(e), last),
            (Ok(y), last) => (Ok(x == y), last),
        },
    }
}

/// Whether comparing two links has a block to read or to write: not where
/// both hold one and the same address.
pub open spec fn links_differ(left: LinkModel, right: LinkModel) -> bool {
    match (left, right) {
        (LinkModel::Encoded(a), LinkModel::Encoded(b)) => a != b,
        _ => true,
    }
}

/// Whether going through two lists of entries name by name has a block to
/// read or to write: only where they have a name in common whose links do
/// not hold one and the same address.
pub open spec fn entries_differ(left: Seq<(Name, LinkModel)>, right: Seq<(Name, LinkModel)>)
    -> bool {
    exists|i: int, j: int|
        #![trigger left[i], right[j]]
        0 <= i < left.len() && 0 <= j < right.len() && left[i].0 == right[j].0 && links_differ(
            left[i].1,
            right[j].1,
        )
}

/// The link that takes the place of `link` where `base` is the link of the
/// same name in the earlier tree: `None` where both lead to the same
/// content or to nodes of different kinds; else the node behind `link` with
/// the address of the node behind `base` as its earlier version, and below a
/// directory the same for every entry that both directories have. `fuel`
/// bounds how many directories deep the links are followed.
pub open spec fn rebased_link(link: LinkModel, base: LinkModel, blocks: Blocks, fuel: nat) -> (
    Result<Option<LinkModel>, FsError>,
    Blocks,
)
    decreases fuel, 0nat, 0nat,
{
    if fuel == 0 {
        (Err(FsError::UnexpectedNodeType), blocks)
    } else {
        match deep_equal(link, base, blocks) {
            (Err(e), b1) => (Err(e), b1),
            (Ok(true), b1) => (Ok(None), b1),
            (Ok(false), b1) => match resolve(link, b1) {
                Err(e) => (Err(e), b1),
                Ok(node) => match resolve(base, b1) {
                    Err(e) => (Err(e), b1),
                    Ok(base_node) => match (node, base_node) {
                        (NodeModel::Dir(dir), NodeModel::Dir(base_dir)) => match stored_link(
                            base,
                            b1,
                        ) {
                            (Err(e), b2) => (Err(e), b2),
                            (Ok(cid), b2) => match rebased_entries(
                                dir.userland,
                                dir.userland,
                                base_dir.userland,
                                b2,
                                (fuel - 1) as nat,
                            ) {
                                (Err(e), b3) => (Err(e), b3),
                                (Ok(userland), b3) => (
                                    Ok(
                                        Some(
                                            LinkModel::Decoded(
                                                NodeModel::Dir(
                                                    DirModel {
                                                        metadata: dir.metadata,
                                                        userland,
                                                        previous: Some(cid),
                                                    },
                                                ),
                                            ),
                                        ),
                                    ),
                                    b3,
                                ),
                            },
                        },
                        (NodeModel::File(file), NodeModel::File(_)) => match stored_link(base, b1) {
                            (Err(e), b2) => (Err(e), b2),
                            (Ok(cid), b2) => (
                                Ok(
                                    Some(
                                        LinkModel::Decoded(
                                            NodeModel::File(
                                                PublicFile { previous: Some(cid), ..file },
                                            ),
                                        ),
                                    ),
                                ),
                                b2,
                            ),
                        },
                        _ => (Ok(None), b1),
                    },
                },
            },
        }
    }
}

/// The entries `userland` after each entry of `todo` that `base` has too
/// was replaced as `rebased_link` says.
pub open spec fn rebased_entries(
    todo: Seq<(Name, LinkModel)>,
    userland: Seq<(Name, LinkModel)>,
    base: Seq<(Name, LinkModel)>,
    blocks: Blocks,
    fuel: nat,
) -> (Result<Seq<(Name, LinkModel)>, FsError>, Blocks)
    decreases fuel, 1nat, todo.len(),
{
    if todo.len() == 0 {
        (Ok(userland), blocks)
    } else {
        let rest = todo.subrange(1, todo.len() as int);
        match find(base, todo[0].0) {
            None => rebased_entries(rest, userland, base, blocks, fuel),
            Some(base_link) => match rebased_link(todo[0].1, base_link, blocks, fuel) {
                (Err(e), after) => (Err(e), after),
                (Ok(None), after) => rebased_entries(rest, userland, base, after, fuel),
                (Ok(Some(link)), after) => rebased_entries(
                    rest,
                    put(userland, todo[0].0, link),
                    base,
                    after,
                    fuel,
                ),
            },
        }
    }
}

/// The directory `dir` with `base` as the version it derives from.
pub open spec fn based_on(dir: DirModel, base: DirModel, blocks: Blocks, fuel: nat) -> (
    Result<DirModel, FsError>,
    Blocks,
) {
    match stored_dir(base, blocks) {
        (Err(e), b1) => (Err(e), b1),
        (Ok(cid), b1) => match rebased_entries(dir.userland, dir.userland, base.userland, b1, fuel) {
            (Err(e), b2) => (Err(e), b2),
            (Ok(userland), b2) => (
                Ok(DirModel { metadata: dir.metadata, userland, previous: Some(cid) }),
                b2,
            ),
        },
    }
}

/// The addresses of the earlier versions of `dir`, the latest first, as far
/// as `limit` reaches.
pub open spec fn history(dir: DirModel, blocks: Blocks, limit: nat) -> Result<Seq<Cid>, FsError>
    decreases limit,
{
    if limit == 0 {
        Ok(Seq::empty())
    } else {
        match dir.previous {
            None => Ok(Seq::empty()),
            Some(cid) => match resolve(LinkModel::Encoded(cid), blocks) {
                Err(e) => Err(e),
                Ok(NodeModel::File(_)) => Err(FsError::NotADirectory),
                Ok(NodeModel::Dir(earlier)) => match history(earlier, blocks, (limit - 1) as nat) {
                    Err(e) => Err(e),
                    Ok(rest) => Ok(seq![cid] + rest),
                },
            },
        }
    }
}

/// Encodes a value and puts it into the store as a DAG-CBOR block.
pub fn store_value<B: BlockStore>(value: &Value, store: &mut B) -> (r: Result<Cid, FsError>)
    ensures
        final(store).reliable() == old(store).reliable(),
        (r, final(store).blocks()) == stored_value(value.model(), old(store).blocks()) || (
        store_failed(r) && !old(store).reliable()),
{
    match encode(value) {
        Some(bytes) => store.put_block(bytes, CODEC_DAG_CBOR),
        None => Err(FsError::UnexpectedNodeType),
    }
}

impl PublicFile {
    /// Stores the file and returns its address.
    pub fn store<B: BlockStore>(&self, store: &mut B) -> (r: Result<Cid, FsError>)
        ensures
            final(store).reliable() == old(store).reliable(),
            (r, final(store).blocks()) == stored_value(file_value(*self), old(store).blocks())
                || (store_failed(r) && !old(store).reliable()),
    {
        let value = file_to_value(self);
        store_value(&value, store)
    }
}

impl PublicLink {
    /// Gets the address of the node that the link leads to, storing the
    /// node where the link holds it.
    pub fn resolve_cid<B: BlockStore>(&self, store: &mut B) -> (r: Result<Cid, FsError>)
        ensures
            final(store).reliable() == old(store).reliable(),
            (r, final(store).blocks()) == stored_link(self.model(), old(store).blocks()) || (
            store_failed(r) && !old(store).reliable() && self.model() is Decoded),
        decreases self,
    {
        match self {
            PublicLink::Encoded(cid) => Ok(*cid),
            PublicLink::Decoded(node) => node.store(store),
        }
    }

    /// Tells whether two links lead to the same content.
    pub fn deep_eq<B: BlockStore>(&self, other: &PublicLink, store: &mut B) -> (r: Result<
        bool,
        FsError,
    >)
        ensures
            final(store).reliable() == old(store).reliable(),
            (r, final(store).blocks()) == deep_equal(
                self.model(),
                other.model(),
                old(store).blocks(),
            ) || (store_failed(r) && !old(store).reliable() && (self.model() is Decoded
                || other.model() is Decoded)),
    {
        let a = self.resolve_cid(store)?;
        let b = other.resolve_cid(store)?;
        Ok(a.same(&b))
    }
}

impl PublicNode {
    /// Stores the node and returns its address.
    pub fn store<B: BlockStore>(&self, store: &mut B) -> (r: Result<Cid, FsError>)
        ensures
            final(store).reliable() == old(store).reliable(),
            (r, final(store).blocks()) == stored_node(self.model(), old(store).blocks()) || (
            store_failed(r) && !old(store).reliable()),
        decreases self,
    {
        match self {
            PublicNode::File(file) => file.store(store),
            PublicNode::Dir(dir) => dir.store(store),
        }
    }
}

impl PublicDirectory {
    /// Stores the directory and the nodes that it holds, and returns its
    /// address.
    pub fn store<B: BlockStore>(&self, store: &mut B) -> (r: Result<Cid, FsError>)
        ensures
            final(store).reliable() == old(store).reliable(),
            (r, final(store).blocks()) == stored_dir(self.model(), old(store).blocks()) || (
            store_failed(r) && !old(store).reliable()),
        decreases self,
    {
        let ghost entries = self.model().userland;
        let ghost goal = stored_dir(self.model(), store.blocks());
        let ghost reliable = store.reliable();
        let mut links: Vec<(String, Cid)> = Vec::new();
        let mut i: usize = 0;
        proof {
            assert(entries.subrange(0, entries.len() as int) =~= entries);
            assert(links_view(links@) =~= Seq::empty());
        }
        while i < self.userland.len()
            invariant
                i <= self.userland.len(),
                entries == self.model().userland,
                store.reliable() == reliable,
                reliable == old(store).reliable(),
                stored_entries(entries, Seq::empty(), old(store).blocks()) == stored_entries(
                    entries.subrange(i as int, entries.len() as int),
                    links_view(links@),
                    store.blocks(),
                ),
            decreases self.userland.len() - i,
        {
            let ghost rest = entries.subrange(i as int, entries.len() as int);
            let ghost done = links_view(links@);
            proof {
                assert(rest[0] == entries[i as int]);
                assert(rest.subrange(1, rest.len() as int) =~= entries.subrange(
                    i + 1,
                    entries.len() as int,
                ));
            }
            let cid = self.userland[i].1.resolve_cid(store)?;
            links.push((self.userland[i].0.clone(), cid));
            proof {
                assert(links_view(links@) =~= done.push((entries[i as int].0, cid)));
            }
            i += 1;
        }
        let value = dir_to_value(&self.metadata, links, &self.previous);
        store_value(&value, store)
    }

    /// Makes a copy of this directory that has `base` as the version it
    /// derives from: `base` is stored and its address written into the copy,
    /// and below it every node that both trees hold under the same names,
    /// with different content, gets the address of the earlier node. Where
    /// both handles are one, the directory is given back as it is and
    /// nothing is stored.
    pub fn base_history_on<B: BlockStore>(self: Rc<Self>, base: Rc<Self>, store: &mut B) -> (r:
        Result<PublicOpResult<()>, FsError>)
        ensures
            final(store).reliable() == old(store).reliable(),
            self.model().wf() && base.model().wf() && r is Ok ==> r->Ok_0.root_dir.model().wf(),
            store_failed(r) && !old(store).reliable() || (r matches Ok(op) && self.model()
                == base.model() && op.root_dir.model() == self.model() && final(store).blocks()
                == old(store).blocks()) || match r {
                Ok(op) => (Ok::<DirModel, FsError>(op.root_dir.model()), final(store).blocks())
                    == based_on(self.model(), base.model(), old(store).blocks(), usize::MAX as nat),
                Err(e) => (Err::<DirModel, FsError>(e), final(store).blocks()) == based_on(
                    self.model(),
                    base.model(),
                    old(store).blocks(),
                    usize::MAX as nat,
                ),
            },
    {
        if same_handle(&self, &base) {
            return Ok(PublicOpResult { root_dir: self, result: () });
        }
        let cid = base.store(store)?;
        let mut dir = self.copy();
        dir.previous = Some(cid);
        rebase_entries(&self.userland, &mut dir.userland, &base.userland, store, usize::MAX)?;
        proof {
            if self.model().wf() && base.model().wf() {
                lemma_based_on_wf(
                    self.model(),
                    base.model(),
                    old(store).blocks(),
                    usize::MAX as nat,
                );
            }
        }
        Ok(PublicOpResult { root_dir: Rc::new(dir), result: () })
    }

    /// The addresses of the earlier versions of this directory, the latest
    /// first, at most `limit` of them.
    pub fn get_history<B: BlockStore>(self: Rc<Self>, limit: usize, store: &B) -> (r: Result<
        Vec<Cid>,
        FsError,
    >)
        ensures
            store_failed(r) && !store.reliable() && limit > 0 && self.model().previous is Some
                || match r {
                Ok(cids) => history(self.model(), store.blocks(), limit as nat) == Ok::<
                    Seq<Cid>,
                    FsError,
                >(cids@),
                Err(e) => history(self.model(), store.blocks(), limit as nat) == Err::<
                    Seq<Cid>,
                    FsError,
                >(e),
            },
    {
        let ghost goal = history(self.model(), store.blocks(), limit as nat);
        let mut working_node = self;
        let mut cids: Vec<Cid> = Vec::new();
        let mut left = limit;
        proof {
            assert(Seq::<Cid>::empty() + Seq::<Cid>::empty() =~= Seq::<Cid>::empty());
        }
        while left > 0
            invariant
                goal == history(self.model(), store.blocks(), limit as nat),
                goal == match history(working_node.model(), store.blocks(), left as nat) {
                    Ok(rest) => Ok::<Seq<Cid>, FsError>(cids@ + rest),
                    Err(e) => Err::<Seq<Cid>, FsError>(e),
                },
                left <= limit,
                left == limit ==> working_node.model() == self.model(),
                left < limit ==> self.model().previous is Some,
            decreases left,
        {
            let ghost done = cids@;
            let cid = match working_node.previous {
                Some(cid) => cid,
                None => {
                    proof {
                        assert(cids@ + Seq::<Cid>::empty() =~= cids@);
                    }
                    return Ok(cids);
                },
            };
            let node = PublicLink::Encoded(cid).resolve_value(store)?;
            match node {
                PublicNode::Dir(earlier) => {
                    cids.push(cid);
                    proof {
                        let tail = history(earlier.model(), store.blocks(), (left - 1) as nat);
                        if tail is Ok {
                            assert(done + (seq![cid] + tail->Ok_0) =~= cids@ + tail->Ok_0);
                        }
                    }
                    working_node = earlier;
                },
                PublicNode::File(_) => {
                    return Err(FsError::NotADirectory);
                },
            }
            left -= 1;
        }
        proof {
            assert(cids@ + Seq::<Cid>::empty() =~= cids@);
        }
        Ok(cids)
    }

    /// Works out the link that takes the place of `link` in a tree that
    /// derives from the tree of `base_link`. `fuel` bounds how many
    /// directories deep the links are followed.
    pub fn base_history_on_helper<B: BlockStore>(
        link: &PublicLink,
        base_link: &PublicLink,
        store: &mut B,
        fuel: usize,
    ) -> (r: Result<Option<PublicLink>, FsError>)
        ensures
            final(store).reliable() == old(store).reliable(),
            store_failed(r) && !old(store).reliable() && fuel > 0 && links_differ(
                link.model(),
                base_link.model(),
            ) || (
                option_link_result(r),
                final(store).blocks(),
            ) == rebased_link(link.model(), base_link.model(), old(store).blocks(), fuel as nat),
        decreases fuel, 0nat, 0nat,
    {
        if fuel == 0 {
            return Err(FsError::UnexpectedNodeType);
        }
        if link.deep_eq(base_link, store)? {
            return Ok(None);
        }
        let node = link.resolve_value(store)?;
        let base_node = base_link.resolve_value(store)?;
        match (node, base_node) {
            (PublicNode::Dir(dir_rc), PublicNode::Dir(base_dir_rc)) => {
                let mut dir = dir_rc.copy();
                dir.previous = Some(base_link.resolve_cid(store)?);
                rebase_entries(
                    &dir_rc.userland,
                    &mut dir.userland,
                    &base_dir_rc.userland,
                    store,
                    fuel - 1,
                )?;
                Ok(Some(PublicLink::with_dir(Rc::new(dir))))
            },
            (PublicNode::File(file_rc), PublicNode::File(_)) => {
                let mut file: PublicFile = *file_rc;
                file.previous = Some(base_link.resolve_cid(store)?);
                Ok(Some(PublicLink::with_file(Rc::new(file))))
            },
            _ => Ok(None),
        }
    }
}

/// A result that may hold a link, as contracts see it.
pub open spec fn option_link_result(r: Result<Option<PublicLink>, FsError>) -> Result<
    Option<LinkModel>,
    FsError,
> {
    match r {
        Ok(Some(link)) => Ok(Some(link.model())),
        Ok(None) => Ok(None),
        Err(e) => Err(e),
    }
}

/// Replaces in `userland` each entry of `todo` that `base` has too, as
/// `base_history_on_helper` says.
fn rebase_entries<B: BlockStore>(
    todo: &Vec<(String, PublicLink)>,
    userland: &mut Vec<(String, PublicLink)>,
    base: &Vec<(String, PublicLink)>,
    store: &mut B,
    fuel: usize,
) -> (r: Result<(), FsError>)
    ensures
        final(store).reliable() == old(store).reliable(),
        store_failed(r) && !old(store).reliable() && fuel > 0 && entries_differ(
            userland_model(todo@),
            userland_model(base@),
        ) || match r {
            Ok(_) => (
                Ok::<Seq<(Name, LinkModel)>, FsError>(userland_model(final(userland)@)),
                final(store).blocks(),
            ) == rebased_entries(
                userland_model(todo@),
                userland_model(old(userland)@),
                userland_model(base@),
                old(store).blocks(),
                fuel as nat,
            ),
            Err(e) => (Err::<Seq<(Name, LinkModel)>, FsError>(e), final(store).blocks())
                == rebased_entries(
                userland_model(todo@),
                userland_model(old(userland)@),
                userland_model(base@),
                old(store).blocks(),
                fuel as nat,
            ),
        },
    decreases fuel, 1nat, todo.len(),
{
    let ghost all = userland_model(todo@);
    let ghost base_model = userland_model(base@);
    let ghost goal = rebased_entries(
        all,
        userland_model(userland@),
        base_model,
        store.blocks(),
        fuel as nat,
    );
    let ghost reliable = store.reliable();
    let mut i: usize = 0;
    proof {
        assert(all.subrange(0, all.len() as int) =~= all);
    }
    while i < todo.len()
        invariant
            i <= todo.len(),
            all == userland_model(todo@),
            base_model == userland_model(base@),
            store.reliable() == reliable,
            reliable == old(store).reliable(),
            goal == rebased_entries(
                all,
                userland_model(old(userland)@),
                base_model,
                old(store).blocks(),
                fuel as nat,
            ),
            goal == rebased_entries(
                all.subrange(i as int, all.len() as int),
                userland_model(userland@),
                base_model,
                store.blocks(),
                fuel as nat,
            ),
        decreases todo.len() - i,
    {
        let ghost rest = all.subrange(i as int, all.len() as int);
        proof {
            assert(rest[0] == all[i as int]);
            assert(rest.subrange(1, rest.len() as int) =~= all.subrange(i + 1, all.len() as int));
            lemma_userland_find(base@, todo[i as int].0@);
        }
        match position(base, todo[i].0.as_str()) {
            Some(k) => {
                proof {
                    assert(all[i as int] == (todo[i as int].0@, todo[i as int].1.model()));
                    assert(base_model[k as int] == (base[k as int].0@, base[k as int].1.model()));
                    assert(all[i as int].0 == base_model[k as int].0);
                }
                let replaced = PublicDirectory::base_history_on_helper(
                    &todo[i].1,
                    &base[k].1,
                    store,
                    fuel,
                )?;
                match replaced {
                    Some(new_entry) => {
                        let ghost before = userland@;
                        insert_entry(userland, todo[i].0.clone(), new_entry);
                        proof {
                            lemma_userland_put(before, todo[i as int].0@, new_entry, userland@);
                        }
                    },
                    None => {},
                }
            },
            None => {},
        }
        i += 1;
    }
    Ok(())
}

} // verus!
