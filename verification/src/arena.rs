//! The arena tree: one owned table of node records, keyed by id.
//!
//! Records never reference each other by pointer, only by id. The table is
//! owned exclusively by the `TreeMap`, and every operation takes the whole
//! tree (`&self` or `&mut self`), which is what makes the two structural
//! edits of a move atomic from a caller's point of view.

use vstd::prelude::*;

use crate::error::TreeError;
use crate::ids::fresh_id;
use crate::model::{
    NodeView, TreeView, views_of, has_id, node_at, reaches_root, steps_to_root, anc_ids,
    depth_of, wf_node, lemma_node_at, lemma_idx_of_is, lemma_reaches_fuel_monotone,
    lemma_steps_fuel_agree, lemma_anc_fuel_agree, lemma_anc_props, lemma_anc_contains_root,
    add_child_post, lemma_add_child_wf, lemma_views_of_push, move_post, lemma_move_wf,
};

verus! {

/// One arena record: an id, the ids of the children in order, and the id of
/// the parent (absent only for the root of the tree).
pub struct NodeMap {
    pub id: String,
    pub children: Vec<String>,
    pub parent: Option<String>,
}

/// The view of an optional id string.
pub open spec fn opt_view(o: Option<String>) -> Option<Seq<char>> {
    match o {
        None => None,
        Some(s) => Some(s@),
    }
}

impl View for NodeMap {
    type V = NodeView;

    open spec fn view(&self) -> NodeView {
        NodeView { id: self.id@, children: views_of(self.children@), parent: opt_view(self.parent) }
    }
}

/// The views of a sequence of owned records.
pub open spec fn nviews(s: Seq<NodeMap>) -> Seq<NodeView> {
    s.map_values(|n: NodeMap| n@)
}

impl NodeMap {
    /// A freshly named record with no children and the given parent id.
    pub fn new(parent: Option<String>) -> (r: NodeMap)
        ensures
            r.id@.len() == 36,
            r@.children.len() == 0,
            r@.parent == opt_view(parent),
    {
        let r = NodeMap { id: fresh_id(), children: Vec::new(), parent };
        proof {
            assert(views_of(r.children@) =~= Seq::<Seq<char>>::empty());
        }
        r
    }
}

/// The arena tree itself: the table of records (in insertion order) and the
/// id that the reserved `"root"` alias currently resolves to.
pub struct TreeMap {
    nodes: Vec<NodeMap>,
    root_id: String,
}

impl View for TreeMap {
    type V = TreeView;

    closed spec fn view(&self) -> TreeView {
        TreeView { nodes: nviews(self.nodes@), root_id: self.root_id@ }
    }
}

impl TreeMap {
    /// Well-formedness of the arena (see `crate::model::wf`).
    pub open spec fn wf(&self) -> bool {
        crate::model::wf(self@)
    }

    /// Creates a tree from a supplied root record, or from a freshly named
    /// one. The record is stored unlinked (no parent), and the reserved
    /// alias resolves to it.
    pub fn new(root: Option<NodeMap>) -> (t: TreeMap)
        requires
            root matches Some(r) ==> r@.parent is None && r@.children.len() == 0,
        ensures
            t.wf(),
            t@.nodes.len() == 1,
            t@.root_id == t@.nodes[0].id,
            t@.nodes[0].parent is None,
            t@.nodes[0].children.len() == 0,
            root matches Some(r) ==> t@.nodes[0] == r@,
            root is None ==> t@.nodes[0].id.len() == 36,
    {
        let node = match root {
            Some(r) => r,
            None => NodeMap::new(None),
        };
        let root_id = node.id.clone();
        let mut nodes: Vec<NodeMap> = Vec::new();
        nodes.push(node);
        let t = TreeMap { nodes, root_id };
        proof {
            let tv = t@;
            assert(tv.nodes.len() == 1);
            lemma_idx_of_is(tv.nodes, tv.nodes[0].id, 0);
            assert forall|id: Seq<char>| #[trigger] has_id(tv.nodes, id) implies wf_node(
                tv,
                id,
            ) by {
                let i = choose|i: int| 0 <= i < tv.nodes.len() && tv.nodes[i].id == id;
                assert(i == 0);
                lemma_idx_of_is(tv.nodes, id, 0);
                assert(tv.nodes[0].children.no_duplicates());
                assert(reaches_root(tv, id, 1));
            }
        }
        t
    }

    /// The index of the record carrying `id`, by linear scan.
    fn find_idx(&self, id: &String) -> (r: Option<usize>)
        ensures
            match r {
                Some(i) => i < self@.nodes.len() && self@.nodes[i as int].id == id@,
                None => !has_id(self@.nodes, id@),
            },
    {
        let n = self.nodes.len();
        for i in 0..n
            invariant
                n == self.nodes@.len(),
                forall|k: int| 0 <= k < i ==> self@.nodes[k].id != id@,
        {
            if self.nodes[i].id == *id {
                return Some(i);
            }
        }
        None
    }

    /// Resolves an id to its record. The reserved alias `"root"` always
    /// resolves to the current root's record; any other id is looked up in
    /// the table, and an absent id is a typed lookup failure.
    pub fn find_by_id(&self, id: &String) -> (r: Result<&NodeMap, TreeError>)
        requires
            self.wf(),
        ensures
            id@ == "root"@ ==> (r matches Ok(n) && n@ == node_at(self@.nodes, self@.root_id)),
            id@ != "root"@ ==> match r {
                Ok(n) => has_id(self@.nodes, id@) && n@ == node_at(self@.nodes, id@),
                Err(e) => e == TreeError::NotFound && !has_id(self@.nodes, id@),
            },
    {
        let root_key: String = "root".to_owned();
        if *id == root_key {
            Ok(self.root_entry())
        } else {
            match self.find_idx(id) {
                Some(i) => {
                    proof {
                        lemma_idx_of_is(self@.nodes, id@, i as int);
                    }
                    Ok(&self.nodes[i])
                },
                None => Err(TreeError::NotFound),
            }
        }
    }

    /// The current root's record (what the reserved alias resolves to).
    pub fn get_root(&self) -> (n: &NodeMap)
        requires
            self.wf(),
        ensures
            n@ == node_at(self@.nodes, self@.root_id),
            n@.id == self@.root_id,
    {
        self.root_entry()
    }

    /// Stores `child`'s record in the table and links it under the record
    /// named by `parent` (default: the current root): the parent's child
    /// list grows by the child's id and the child records that parent.
    ///
    /// An id already live in the table is rejected, as is the reserved
    /// alias; a parent id that is not a key of the table is a typed lookup
    /// failure. A refused call leaves the tree unchanged.
    pub fn add_child(&mut self, child: NodeMap, parent: Option<&String>) -> (r: Result<
        (),
        TreeError,
    >)
        requires
            old(self).wf(),
            child@.children.len() == 0,
        ensures
            final(self).wf(),
            ({
                let pre = old(self)@;
                let post = final(self)@;
                let cid = child.id@;
                let pid = match parent {
                    None => pre.root_id,
                    Some(p) => p@,
                };
                match r {
                    Ok(()) => {
                        &&& cid != "root"@
                        &&& !has_id(pre.nodes, cid)
                        &&& has_id(pre.nodes, pid)
                        &&& post == add_child_post(pre, cid, pid)
                    },
                    Err(e) => {
                        &&& post == pre
                        &&& (e == TreeError::ReservedId <==> cid == "root"@)
                        &&& (e == TreeError::DuplicateId <==> cid != "root"@ && has_id(
                            pre.nodes,
                            cid,
                        ))
                        &&& (e == TreeError::NotFound <==> cid != "root"@ && !has_id(
                            pre.nodes,
                            cid,
                        ) && !has_id(pre.nodes, pid))
                        &&& (e == TreeError::ReservedId || e == TreeError::DuplicateId || e
                            == TreeError::NotFound)
                    },
                }
            }),
    {
        let ghost pre = self@;
        let root_key: String = "root".to_owned();
        if child.id == root_key {
            return Err(TreeError::ReservedId);
        }
        if self.find_idx(&child.id).is_some() {
            return Err(TreeError::DuplicateId);
        }
        let pidx: usize = match parent {
            Some(p) => {
                match self.find_idx(p) {
                    Some(i) => i,
                    None => {
                        return Err(TreeError::NotFound);
                    },
                }
            },
            None => {
                proof {
                    lemma_node_at(self@.nodes, self@.root_id);
                }
                match self.find_idx(&self.root_id) {
                    Some(i) => i,
                    None => vstd::pervasive::unreached(),
                }
            },
        };
        let ghost pre_nodes = self.nodes@;
        let ghost pid = pre.nodes[pidx as int].id;
        let ghost cid = child.id@;
        proof {
            lemma_idx_of_is(pre.nodes, pid, pidx as int);
        }
        let pid_str = self.nodes[pidx].id.clone();
        let child_key = child.id.clone();
        let mut pnode = self.nodes.remove(pidx);
        let ghost pnode0 = pnode;
        pnode.children.push(child_key);
        self.nodes.insert(pidx, pnode);
        proof {
            assert(self.nodes@ =~= pre_nodes.update(pidx as int, self.nodes@[pidx as int]));
        }
        let ghost mid_nodes = self.nodes@;
        self.nodes.push(NodeMap { id: child.id, children: child.children, parent: Some(pid_str) });
        proof {
            let post_spec = add_child_post(pre, cid, pid);
            let p0 = pre.nodes[pidx as int];
            lemma_views_of_push(pnode0.children@, child_key);
            assert(mid_nodes[pidx as int]@ == NodeView {
                id: p0.id,
                children: p0.children.push(cid),
                parent: p0.parent,
            });
            assert(views_of(child.children@) =~= Seq::<Seq<char>>::empty());
            assert(self@.nodes =~= post_spec.nodes);
            assert(self@ == post_spec);
            lemma_add_child_wf(pre, cid, pid);
        }
        Ok(())
    }

    /// The ancestor chain of the record carrying `id`: immediate parent
    /// first, root last, as a sequence of ids. Its length is exactly the
    /// node's depth below the root. An absent id is a typed lookup failure.
    pub fn get_ancestors(&self, id: &String) -> (r: Result<Vec<String>, TreeError>)
        requires
            self.wf(),
        ensures
            match r {
                Ok(v) => {
                    &&& has_id(self@.nodes, id@)
                    &&& views_of(v@) == anc_ids(self@, id@, self@.nodes.len())
                    &&& v@.len() == depth_of(self@, id@)
                },
                Err(e) => e == TreeError::NotFound && !has_id(self@.nodes, id@),
            },
    {
        match self.find_idx(id) {
            None => {
                return Err(TreeError::NotFound);
            },
            Some(i) => {
                proof {
                    assert(self@.nodes[i as int].id == id@);
                    assert(has_id(self@.nodes, id@));
                }
            },
        }
        let mut collection: Vec<String> = Vec::new();
        get_nodemap_ancestors_recursive(self, id, &mut collection);
        proof {
            assert(views_of(collection@) =~= anc_ids(self@, id@, self@.nodes.len()));
            lemma_anc_props(self@, id@, self@.nodes.len());
        }
        Ok(collection)
    }

    /// Reparents the record carrying `tgt_id` under the record carrying
    /// `new_parent_id`, in place and without changing any id: the target
    /// leaves its old parent's child list, joins the new parent's child
    /// list at the end, and records the new parent.
    ///
    /// A move whose destination is the target itself or one of the
    /// target's descendants would create a cycle; it is refused and the
    /// tree is left unchanged. An absent id is a typed lookup failure,
    /// also leaving the tree unchanged.
    #[verifier::rlimit(60)]
    pub fn move_node(&mut self, tgt_id: &String, new_parent_id: &String) -> (r: Result<
        (),
        TreeError,
    >)
        requires
            old(self).wf(),
        ensures
            final(self).wf(),
            ({
                let pre = old(self)@;
                let post = final(self)@;
                let n = pre.nodes.len();
                let tgt = tgt_id@;
                let np = new_parent_id@;
                match r {
                    Ok(()) => {
                        &&& has_id(pre.nodes, tgt)
                        &&& has_id(pre.nodes, np)
                        &&& tgt != np
                        &&& !anc_ids(pre, np, n).contains(tgt)
                        &&& post == move_post(pre, tgt, np)
                        &&& anc_ids(post, tgt, n) == seq![np] + anc_ids(pre, np, n)
                    },
                    Err(e) => {
                        &&& post == pre
                        &&& (e == TreeError::NotFound <==> !has_id(pre.nodes, tgt) || !has_id(
                            pre.nodes,
                            np,
                        ))
                        &&& (e == TreeError::WouldCycle <==> has_id(pre.nodes, tgt) && has_id(
                            pre.nodes,
                            np,
                        ) && (tgt == np || anc_ids(pre, np, n).contains(tgt)))
                        &&& (e == TreeError::NotFound || e == TreeError::WouldCycle)
                    },
                }
            }),
    {
        let ghost pre = self@;
        let ghost n = pre.nodes.len() as nat;
        let ghost tgt = tgt_id@;
        let ghost np = new_parent_id@;
        let tidx: usize = match self.find_idx(tgt_id) {
            Some(i) => i,
            None => {
                return Err(TreeError::NotFound);
            },
        };
        let npidx: usize = match self.find_idx(new_parent_id) {
            Some(i) => i,
            None => {
                return Err(TreeError::NotFound);
            },
        };
        proof {
            lemma_idx_of_is(pre.nodes, tgt, tidx as int);
            lemma_idx_of_is(pre.nodes, np, npidx as int);
        }
        // Refuse a move that would make the target an ancestor of itself.
        if *tgt_id == *new_parent_id {
            return Err(TreeError::WouldCycle);
        }
        let ancestors = match self.get_ancestors(new_parent_id) {
            Ok(v) => v,
            Err(_) => vstd::pervasive::unreached(),
        };
        if contains_id(&ancestors, tgt_id) {
            return Err(TreeError::WouldCycle);
        }
        // The target cannot be the root here: the root is on every other
        // node's ancestor chain, so the cycle check above would have fired.
        proof {
            assert(wf_node(pre, tgt));
            assert(wf_node(pre, np));
            if node_at(pre.nodes, tgt).parent is None {
                assert(tgt == pre.root_id);
                if node_at(pre.nodes, np).parent is Some {
                    lemma_anc_contains_root(pre, np, n);
                } else {
                    assert(np == pre.root_id);
                }
                assert(false);
            }
        }
        let opid: String = match &self.nodes[tidx].parent {
            Some(p) => p.clone(),
            None => vstd::pervasive::unreached(),
        };
        proof {
            assert(node_at(pre.nodes, tgt).parent == Some(opid@));
            assert(has_id(pre.nodes, opid@));
        }
        let opidx: usize = match self.find_idx(&opid) {
            Some(i) => i,
            None => vstd::pervasive::unreached(),
        };
        proof {
            lemma_idx_of_is(pre.nodes, opid@, opidx as int);
            assert(node_at(pre.nodes, opid@).children.contains(tgt));
        }
        let ghost pre_nodes = self.nodes@;
        // First edit: the target's id leaves its old parent's child list.
        let mut onode = self.nodes.remove(opidx);
        remove_first(&mut onode.children, tgt_id);
        self.nodes.insert(opidx, onode);
        proof {
            assert(self.nodes@ =~= pre_nodes.update(opidx as int, self.nodes@[opidx as int]));
        }
        let ghost mid1_nodes = self.nodes@;
        // Second edit: the target's id joins the new parent's child list.
        let mut pnode = self.nodes.remove(npidx);
        let ghost pnode0 = pnode;
        let tgt_key = tgt_id.clone();
        pnode.children.push(tgt_key);
        self.nodes.insert(npidx, pnode);
        proof {
            assert(self.nodes@ =~= mid1_nodes.update(npidx as int, self.nodes@[npidx as int]));
        }
        let ghost mid2_nodes = self.nodes@;
        // Third edit: the target records its new parent.
        let mut tnode = self.nodes.remove(tidx);
        tnode.parent = Some(new_parent_id.clone());
        self.nodes.insert(tidx, tnode);
        proof {
            assert(self.nodes@ =~= mid2_nodes.update(tidx as int, self.nodes@[tidx as int]));
            let post_spec = move_post(pre, tgt, np);
            let o0 = pre.nodes[opidx as int];
            let nodes1 = pre.nodes.update(
                opidx as int,
                NodeView { id: o0.id, children: o0.children.remove_value(tgt), parent: o0.parent },
            );
            assert(mid1_nodes[opidx as int]@ == NodeView {
                id: o0.id,
                children: o0.children.remove_value(tgt),
                parent: o0.parent,
            });
            assert(nviews(mid1_nodes) =~= nodes1);
            let p0 = nodes1[npidx as int];
            let nodes2 = nodes1.update(
                npidx as int,
                NodeView { id: p0.id, children: p0.children.push(tgt), parent: p0.parent },
            );
            lemma_views_of_push(pnode0.children@, tgt_key);
            assert(mid2_nodes[npidx as int]@ == NodeView {
                id: p0.id,
                children: p0.children.push(tgt),
                parent: p0.parent,
            });
            assert(nviews(mid2_nodes) =~= nodes2);
            let t0 = nodes2[tidx as int];
            assert(self.nodes@[tidx as int]@ == NodeView {
                id: t0.id,
                children: t0.children,
                parent: Some(np),
            });
            assert(nviews(self.nodes@) =~= post_spec.nodes);
            assert(self@ == post_spec);
            lemma_move_wf(pre, tgt, np);
        }
        Ok(())
    }

    /// The number of records in the table.
    pub fn len(&self) -> (n: usize)
        ensures
            n == self@.nodes.len(),
    {
        self.nodes.len()
    }

    /// The record carrying exactly this id (no alias handling).
    pub(crate) fn entry_by_id(&self, id: &String) -> (n: &NodeMap)
        requires
            self.wf(),
            has_id(self@.nodes, id@),
        ensures
            n@ == node_at(self@.nodes, id@),
    {
        match self.find_idx(id) {
            Some(i) => {
                proof {
                    lemma_idx_of_is(self@.nodes, id@, i as int);
                }
                &self.nodes[i]
            },
            None => vstd::pervasive::unreached(),
        }
    }

    /// Looks the root's record up in the table; well-formedness guarantees
    /// that it is there.
    fn root_entry(&self) -> (n: &NodeMap)
        requires
            self.wf(),
        ensures
            n@ == node_at(self@.nodes, self@.root_id),
            n@.id == self@.root_id,
    {
        proof {
            lemma_node_at(self@.nodes, self@.root_id);
        }
        match self.find_idx(&self.root_id) {
            Some(i) => {
                proof {
                    lemma_idx_of_is(self@.nodes, self@.root_id, i as int);
                }
                &self.nodes[i]
            },
            None => vstd::pervasive::unreached(),
        }
    }
}

/// Whether a vector of ids contains `id`, by linear scan.
fn contains_id(v: &Vec<String>, id: &String) -> (b: bool)
    ensures
        b == views_of(v@).contains(id@),
{
    let n = v.len();
    for i in 0..n
        invariant
            n == v@.len(),
            forall|k: int| 0 <= k < i ==> views_of(v@)[k] != id@,
    {
        if v[i] == *id {
            proof {
                assert(views_of(v@)[i as int] == id@);
            }
            return true;
        }
    }
    proof {
        if views_of(v@).contains(id@) {
            let k = choose|k: int| 0 <= k < views_of(v@).len() && views_of(v@)[k] == id@;
            assert(views_of(v@)[k] != id@);
        }
    }
    false
}

/// Removes the first occurrence of `x` from a vector of ids.
fn remove_first(v: &mut Vec<String>, x: &String)
    requires
        views_of(old(v)@).contains(x@),
    ensures
        views_of(final(v)@) == views_of(old(v)@).remove_value(x@),
{
    let n = v.len();
    for j in 0..n
        invariant
            n == v@.len(),
            v@ == old(v)@,
            forall|k: int| 0 <= k < j ==> views_of(v@)[k] != x@,
    {
        if v[j] == *x {
            let ghost s = views_of(v@);
            v.remove(j);
            proof {
                assert(s[j as int] == x@);
                assert(s.contains(x@));
                s.index_of_first_ensures(x@);
                let i = s.index_of_first(x@)->Some_0;
                if i < j {
                    assert(s[i] != x@);
                } else if j < i {
                    assert(s[j as int] != x@);
                }
                assert(i == j);
                assert(views_of(v@) =~= s.remove(j as int));
            }
            return;
        }
    }
    proof {
        let s = views_of(old(v)@);
        let k = choose|k: int| 0 <= k < s.len() && s[k] == x@;
        assert(s[k] != x@);
    }
}

/// Appends the ancestor chain of the record carrying `id` to `collection`:
/// the immediate parent first, then its parent, up to the root. Recursion
/// terminates because each hop strictly decreases the depth below the root.
pub fn get_nodemap_ancestors_recursive(tree: &TreeMap, id: &String, collection: &mut Vec<String>)
    requires
        tree.wf(),
        has_id(tree@.nodes, id@),
    ensures
        views_of(final(collection)@) == views_of(old(collection)@) + anc_ids(
            tree@,
            id@,
            tree@.nodes.len(),
        ),
    decreases steps_to_root(tree@, id@, tree@.nodes.len()),
{
    let ghost t = tree@;
    let ghost n = t.nodes.len() as nat;
    let idx: usize = match tree.find_idx(id) {
        Some(i) => i,
        None => vstd::pervasive::unreached(),
    };
    proof {
        lemma_idx_of_is(t.nodes, id@, idx as int);
        assert(wf_node(t, id@));
    }
    match &tree.nodes[idx].parent {
        None => {
            proof {
                assert(views_of(collection@) =~= views_of(collection@) + anc_ids(t, id@, n));
            }
        },
        Some(p) => {
            let pc = p.clone();
            proof {
                assert(node_at(t.nodes, id@).parent == Some(pc@));
                assert(has_id(t.nodes, pc@));
                assert(reaches_root(t, id@, n));
                lemma_reaches_fuel_monotone(t, pc@, (n - 1) as nat, n);
                lemma_steps_fuel_agree(t, pc@, (n - 1) as nat, n);
                lemma_anc_fuel_agree(t, pc@, (n - 1) as nat, n);
            }
            let ghost coll0 = collection@;
            collection.push(p.clone());
            proof {
                lemma_views_of_push(coll0, pc);
            }
            get_nodemap_ancestors_recursive(tree, &pc, collection);
            proof {
                assert(views_of(collection@) =~= views_of(coll0) + anc_ids(t, id@, n));
            }
        },
    }
}

} // verus!
