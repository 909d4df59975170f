//! Merging two public trees: the union of their entries, name by name.

use vstd::prelude::*;
use std::rc::Rc;
use crate::assoc::{put, Name};
use crate::cid::cid_lt;
use crate::diff::{DiffItem, MapDiff};
use crate::entries::insert_entry;
use crate::error::{store_failed, FsError};
use crate::order::name_lt;
use crate::public::history::{deep_equal, entries_differ, links_differ, stored_link};
use crate::public::in_order::lemma_merged_dir_wf;
use crate::public::node::{
    userland_model, DirModel, LinkModel, NodeModel, PublicDirectory, PublicLink, PublicNode,
};
use crate::public::path::{lemma_userland_put, resolve};
use crate::store::{BlockStore, Blocks};

verus! {

/// The link that a merge keeps of two links under one name: either of two
/// that lead to the same content; of two files the one whose address comes
/// first; a directory before a file; of two directories their merge, with
/// the metadata and the earlier version of the left one. `fuel` bounds how
/// many directories deep the links are followed.
pub open spec fn merged_link(left: LinkModel, right: LinkModel, blocks: Blocks, fuel: nat) -> (
    Result<LinkModel, FsError>,
    Blocks,
)
    decreases fuel, 0nat, 0nat,
{
    if fuel == 0 {
        (Err(FsError::UnexpectedNodeType), blocks)
    } else {
        match deep_equal(left, right, blocks) {
            (Err(e), b1) => (Err(e), b1),
            (Ok(true), b1) => (Ok(left), b1),
            (Ok(false), b1) => match resolve(left, b1) {
                Err(e) => (Err(e), b1),
                Ok(left_node) => match resolve(right, b1) {
                    Err(e) => (Err(e), b1),
                    Ok(right_node) => match (left_node, right_node) {
                        (NodeModel::File(_), NodeModel::File(_)) => match stored_link(left, b1) {
                            (Err(e), b2) => (Err(e), b2),
                            (Ok(left_cid), b2) => match stored_link(right, b2) {
                                (Err(e), b3) => (Err(e), b3),
                                (Ok(right_cid), b3) => (
                                    Ok(
                                        if cid_lt(left_cid, right_cid) {
                                            left
                                        } else {
                                            right
                                        },
                                    ),
                                    b3,
                                ),
                            },
                        },
                        (NodeModel::File(_), NodeModel::Dir(_)) => (Ok(right), b1),
                        (NodeModel::Dir(_), NodeModel::File(_)) => (Ok(left), b1),
                        (NodeModel::Dir(left_dir), NodeModel::Dir(right_dir)) => match merged_entries(
                            left_dir.userland,
                            right_dir.userland,
                            Seq::empty(),
                            b1,
                            (fuel - 1) as nat,
                        ) {
                            (Err(e), b2) => (Err(e), b2),
                            (Ok(userland), b2) => (
                                Ok(
                                    LinkModel::Decoded(
                                        NodeModel::Dir(
                                            DirModel {
                                                metadata: left_dir.metadata,
                                                userland,
                                                previous: left_dir.previous,
                                            },
                                        ),
                                    ),
                                ),
                                b2,
                            ),
                        },
                    },
                },
            },
        }
    }
}

/// The entries `done` with the entries of `left` and `right` added name by
/// name: an entry that only one side has as it is, one that both have as
/// `merged_link` says.
pub open spec fn merged_entries(
    left: Seq<(Name, LinkModel)>,
    right: Seq<(Name, LinkModel)>,
    done: Seq<(Name, LinkModel)>,
    blocks: Blocks,
    fuel: nat,
) -> (Result<Seq<(Name, LinkModel)>, FsError>, Blocks)
    decreases fuel, 1nat, left.len() + right.len(),
{
    let left_rest = left.subrange(1, left.len() as int);
    let right_rest = right.subrange(1, right.len() as int);
    if left.len() == 0 && right.len() == 0 {
        (Ok(done), blocks)
    } else if right.len() == 0 || (left.len() > 0 && name_lt(left[0].0, right[0].0)) {
        merged_entries(left_rest, right, put(done, left[0].0, left[0].1), blocks, fuel)
    } else if left.len() == 0 || name_lt(right[0].0, left[0].0) {
        merged_entries(left, right_rest, put(done, right[0].0, right[0].1), blocks, fuel)
    } else {
        match merged_link(left[0].1, right[0].1, blocks, fuel) {
            (Err(e), after) => (Err(e), after),
            (Ok(link), after) => merged_entries(
                left_rest,
                right_rest,
                put(done, left[0].0, link),
                after,
                fuel,
            ),
        }
    }
}

/// The merge of two directories: the merged entries with the metadata and
/// the earlier version of the left one.
pub open spec fn merged_dir(left: DirModel, right: DirModel, blocks: Blocks, fuel: nat) -> (
    Result<DirModel, FsError>,
    Blocks,
) {
    match merged_entries(left.userland, right.userland, Seq::empty(), blocks, fuel) {
        (Err(e), after) => (Err(e), after),
        (Ok(userland), after) => (
            Ok(DirModel { metadata: left.metadata, userland, previous: left.previous }),
            after,
        ),
    }
}

/// A result that holds a link, as contracts see it.
pub open spec fn link_result(r: Result<PublicLink, FsError>) -> Result<LinkModel, FsError> {
    match r {
        Ok(link) => Ok(link.model()),
        Err(e) => Err(e),
    }
}

/// Merges the entries of two directories.
fn merge_entries<B: BlockStore>(
    left: &Vec<(String, PublicLink)>,
    right: &Vec<(String, PublicLink)>,
    store: &mut B,
    fuel: usize,
) -> (r: Result<Vec<(String, PublicLink)>, FsError>)
    ensures
        final(store).reliable() == old(store).reliable(),
        store_failed(r) && !old(store).reliable() && fuel > 0 && entries_differ(
            userland_model(left@),
            userland_model(right@),
        ) || match r {
            Ok(userland) => (
                Ok::<Seq<(Name, LinkModel)>, FsError>(userland_model(userland@)),
                final(store).blocks(),
            ) == merged_entries(
                userland_model(left@),
                userland_model(right@),
                Seq::empty(),
                old(store).blocks(),
                fuel as nat,
            ),
            Err(e) => (Err::<Seq<(Name, LinkModel)>, FsError>(e), final(store).blocks())
                == merged_entries(
                userland_model(left@),
                userland_model(right@),
                Seq::empty(),
                old(store).blocks(),
                fuel as nat,
            ),
        },
    decreases fuel, 1nat, left.len() + right.len(),
{
    let ghost l = userland_model(left@);
    let ghost r = userland_model(right@);
    let ghost goal = merged_entries(l, r, Seq::empty(), store.blocks(), fuel as nat);
    let mut result: Vec<(String, PublicLink)> = Vec::new();
    let mut walk = MapDiff::new(left, right);
    proof {
        assert(l.subrange(0, l.len() as int) =~= l);
        assert(r.subrange(0, r.len() as int) =~= r);
        assert(userland_model(result@) =~= Seq::empty());
    }
    loop
        invariant
            walk.wf(),
            walk.left == left,
            walk.right == right,
            l == userland_model(left@),
            r == userland_model(right@),
            store.reliable() == old(store).reliable(),
            goal == merged_entries(l, r, Seq::empty(), old(store).blocks(), fuel as nat),
            goal == merged_entries(
                l.subrange(walk.left_pos as int, l.len() as int),
                r.subrange(walk.right_pos as int, r.len() as int),
                userland_model(result@),
                store.blocks(),
                fuel as nat,
            ),
        decreases walk.rest_len(),
    {
        let ghost lp = walk.left_pos as int;
        let ghost rp = walk.right_pos as int;
        let ghost l_now = l.subrange(lp, l.len() as int);
        let ghost r_now = r.subrange(rp, r.len() as int);
        let ghost before = result@;
        proof {
            if lp < l.len() {
                assert(l_now[0] == l[lp]);
                assert(l_now.subrange(1, l_now.len() as int) =~= l.subrange(
                    lp + 1,
                    l.len() as int,
                ));
            }
            if rp < r.len() {
                assert(r_now[0] == r[rp]);
                assert(r_now.subrange(1, r_now.len() as int) =~= r.subrange(
                    rp + 1,
                    r.len() as int,
                ));
            }
        }
        match walk.next() {
            None => {
                proof {
                    assert(walk.left_rest().len() == 0 && walk.right_rest().len() == 0);
                }
                return Ok(result);
            },
            Some(DiffItem::InLeft(key, value)) => {
                let link = value.clone();
                insert_entry(&mut result, key.clone(), link);
                proof {
                    crate::order::lemma_name_order(l_now[0].0, l_now[0].0, l_now[0].0);
                    lemma_userland_put(before, key@, link, result@);
                }
            },
            Some(DiffItem::InRight(key, value)) => {
                let link = value.clone();
                insert_entry(&mut result, key.clone(), link);
                proof {
                    if lp < l.len() {
                        crate::order::lemma_name_order(r_now[0].0, l_now[0].0, r_now[0].0);
                    }
                    lemma_userland_put(before, key@, link, result@);
                }
            },
            Some(DiffItem::InBoth(key, l_value, r_value)) => {
                proof {
                    crate::order::lemma_name_order(l_now[0].0, r_now[0].0, l_now[0].0);
                }
                proof {
                    assert(l[lp] == l_now[0] && r[rp] == r_now[0]);
                }
                let merged = PublicDirectory::basic_merge_links(
                    l_value.clone(),
                    r_value.clone(),
                    store,
                    fuel,
                )?;
                insert_entry(&mut result, key.clone(), merged);
                proof {
                    lemma_userland_put(before, key@, merged, result@);
                }
            },
        }
    }
}

impl PublicDirectory {
    /// Merges this directory with `other`: the union of their entries.
    pub fn basic_merge<B: BlockStore>(self: Rc<Self>, other: Rc<Self>, store: &mut B) -> (r: Result<
        Rc<Self>,
        FsError,
    >)
        ensures
            final(store).reliable() == old(store).reliable(),
            self.model().wf() && other.model().wf() && r is Ok ==> r->Ok_0.model().wf(),
            store_failed(r) && !old(store).reliable() && entries_differ(
                self.model().userland,
                other.model().userland,
            ) || match r {
                Ok(dir) => (Ok::<DirModel, FsError>(dir.model()), final(store).blocks())
                    == merged_dir(
                    self.model(),
                    other.model(),
                    old(store).blocks(),
                    usize::MAX as nat,
                ),
                Err(e) => (Err::<DirModel, FsError>(e), final(store).blocks()) == merged_dir(
                    self.model(),
                    other.model(),
                    old(store).blocks(),
                    usize::MAX as nat,
                ),
            },
    {
        let userland = merge_entries(&self.userland, &other.userland, store, usize::MAX)?;
        proof {
            if self.model().wf() && other.model().wf() {
                lemma_merged_dir_wf(
                    self.model(),
                    other.model(),
                    old(store).blocks(),
                    usize::MAX as nat,
                );
            }
        }
        Ok(Rc::new(PublicDirectory { metadata: self.metadata, userland, previous: self.previous }))
    }

    /// Works out the link that a merge keeps of two links under one name.
    /// `fuel` bounds how many directories deep the links are followed.
    pub fn basic_merge_links<B: BlockStore>(
        left: PublicLink,
        right: PublicLink,
        store: &mut B,
        fuel: usize,
    ) -> (r: Result<PublicLink, FsError>)
        ensures
            final(store).reliable() == old(store).reliable(),
            store_failed(r) && !old(store).reliable() && fuel > 0 && links_differ(
                left.model(),
                right.model(),
            ) || (link_result(r), final(store).blocks()) == merged_link(left.model(), right.model(), old(store).blocks(), fuel as nat),
        decreases fuel, 0nat, 0nat,
    {
        if fuel == 0 {
            return Err(FsError::UnexpectedNodeType);
        }
        if left.deep_eq(&right, store)? {
            return Ok(left);
        }
        let left_node = left.resolve_value(store)?;
        let right_node = right.resolve_value(store)?;
        match (left_node, right_node) {
            (PublicNode::File(_), PublicNode::File(_)) => {
                let left_cid = left.resolve_cid(store)?;
                let right_cid = right.resolve_cid(store)?;
                if left_cid.precedes(&right_cid) {
                    Ok(left)
                } else {
                    Ok(right)
                }
            },
            (PublicNode::File(_), PublicNode::Dir(_)) => Ok(right),
            (PublicNode::Dir(_), PublicNode::File(_)) => Ok(left),
            (PublicNode::Dir(left_dir), PublicNode::Dir(right_dir)) => {
                let userland = merge_entries(
                    &left_dir.userland,
                    &right_dir.userland,
                    store,
                    fuel - 1,
                )?;
                Ok(
                    PublicLink::with_dir(
                        Rc::new(
                            PublicDirectory {
                                metadata: left_dir.metadata,
                                userland,
                                previous: left_dir.previous,
                            },
                        ),
                    ),
                )
            },
        }
    }
}

} // verus!
