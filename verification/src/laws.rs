//! The structural laws of the arena tree, stated and proved once over the
//! model, so that every caller can rely on them without re-deriving them
//! from the operations' contracts.

use vstd::prelude::*;

use crate::model::{
    TreeView, add_child_post, anc_ids, depth_of, has_id, lemma_add_child_wf, lemma_anc_props,
    lemma_move_wf, move_post, node_at, wf, wf_node,
};
use crate::record::{
    export_view, lemma_export_embedded, lemma_rec_nodes_embedded, lemma_rec_nodes_ids, rec_id,
    rec_ids, rec_nodes, rec_ok, same_shape, RecordView,
};

verus! {

/// In a well-formed tree exactly one entry has no parent — the one the
/// root alias names — and every other entry's id appears in exactly one
/// position of one parent's child list, namely the parent that the entry
/// itself records.
pub proof fn lemma_single_root_unique_linkage(t: TreeView)
    requires
        wf(t),
    ensures
        has_id(t.nodes, t.root_id),
        node_at(t.nodes, t.root_id).parent is None,
        forall|i: int|
            0 <= i < t.nodes.len() && t.nodes[i].parent is None ==> t.nodes[i].id == t.root_id,
        forall|i: int|
            0 <= i < t.nodes.len() && t.nodes[i].parent is Some ==> has_id(
                t.nodes,
                t.nodes[i].parent->Some_0,
            ) && node_at(t.nodes, t.nodes[i].parent->Some_0).children.contains(t.nodes[i].id),
        forall|i1: int, j1: int, i2: int, j2: int|
            0 <= i1 < t.nodes.len() && 0 <= j1 < t.nodes[i1].children.len() && 0 <= i2
                < t.nodes.len() && 0 <= j2 < t.nodes[i2].children.len() && t.nodes[i1].children[j1]
                == t.nodes[i2].children[j2] ==> i1 == i2 && j1 == j2,
        forall|i: int, j: int|
            0 <= i < t.nodes.len() && 0 <= j < t.nodes[i].children.len() ==> node_at(
                t.nodes,
                t.nodes[i].children[j],
            ).parent == Some(t.nodes[i].id),
{
    assert forall|i: int|
        0 <= i < t.nodes.len() && t.nodes[i].parent is None implies t.nodes[i].id
        == t.root_id by {
        crate::model::lemma_idx_of_is(t.nodes, t.nodes[i].id, i);
        assert(wf_node(t, t.nodes[i].id));
    }
    assert forall|i: int|
        0 <= i < t.nodes.len() && t.nodes[i].parent is Some implies has_id(
        t.nodes,
        t.nodes[i].parent->Some_0,
    ) && node_at(t.nodes, t.nodes[i].parent->Some_0).children.contains(t.nodes[i].id) by {
        crate::model::lemma_idx_of_is(t.nodes, t.nodes[i].id, i);
        assert(wf_node(t, t.nodes[i].id));
    }
    assert forall|i: int, j: int|
        0 <= i < t.nodes.len() && 0 <= j < t.nodes[i].children.len() implies node_at(
        t.nodes,
        t.nodes[i].children[j],
    ).parent == Some(t.nodes[i].id) by {
        crate::model::lemma_idx_of_is(t.nodes, t.nodes[i].id, i);
        assert(wf_node(t, t.nodes[i].id));
    }
    assert forall|i1: int, j1: int, i2: int, j2: int|
        0 <= i1 < t.nodes.len() && 0 <= j1 < t.nodes[i1].children.len() && 0 <= i2 < t.nodes.len()
            && 0 <= j2 < t.nodes[i2].children.len() && t.nodes[i1].children[j1]
            == t.nodes[i2].children[j2] implies i1 == i2 && j1 == j2 by {
        let x = t.nodes[i1].children[j1];
        crate::model::lemma_idx_of_is(t.nodes, t.nodes[i1].id, i1);
        crate::model::lemma_idx_of_is(t.nodes, t.nodes[i2].id, i2);
        assert(wf_node(t, t.nodes[i1].id));
        assert(wf_node(t, t.nodes[i2].id));
        assert(node_at(t.nodes, x).parent == Some(t.nodes[i1].id));
        assert(node_at(t.nodes, x).parent == Some(t.nodes[i2].id));
        if i1 != i2 {
            assert(t.nodes[i1].id != t.nodes[i2].id);
        }
        if j1 != j2 {
            assert(t.nodes[i1].children.no_duplicates());
        }
    }
}

/// After linking a fresh id under an existing parent, the table has an
/// entry under the child's id, carrying that id and recording that parent —
/// so a lookup of the child's id finds a matching node.
pub proof fn lemma_add_child_then_find(pre: TreeView, cid: Seq<char>, pid: Seq<char>)
    requires
        wf(pre),
        !has_id(pre.nodes, cid),
        has_id(pre.nodes, pid),
    ensures
        wf(add_child_post(pre, cid, pid)),
        has_id(add_child_post(pre, cid, pid).nodes, cid),
        node_at(add_child_post(pre, cid, pid).nodes, cid).id == cid,
        node_at(add_child_post(pre, cid, pid).nodes, cid).parent == Some(pid),
{
    lemma_add_child_wf(pre, cid, pid);
}

/// The root's ancestor chain is empty, and every entry's ancestor chain is
/// exactly as long as the entry is deep below the root.
pub proof fn lemma_ancestors_length_is_depth(t: TreeView, id: Seq<char>)
    requires
        wf(t),
        has_id(t.nodes, id),
    ensures
        anc_ids(t, id, t.nodes.len()).len() == depth_of(t, id),
        id == t.root_id ==> anc_ids(t, id, t.nodes.len()) == Seq::<Seq<char>>::empty(),
        id == t.root_id ==> depth_of(t, id) == 0,
{
    assert(wf_node(t, id));
    lemma_anc_props(t, id, t.nodes.len() as nat);
}

/// A move below a node that is neither the target nor one of the target's
/// descendants succeeds and keeps the tree well formed, and afterwards the
/// target's ancestor chain begins with the new parent, followed by the new
/// parent's own unchanged chain. (A move below the target itself or below
/// one of its descendants is refused with the tree unchanged, which is
/// part of `move_node`'s contract.)
pub proof fn lemma_move_then_ancestors(pre: TreeView, tgt: Seq<char>, np: Seq<char>)
    requires
        wf(pre),
        has_id(pre.nodes, tgt),
        has_id(pre.nodes, np),
        tgt != np,
        !anc_ids(pre, np, pre.nodes.len()).contains(tgt),
        node_at(pre.nodes, tgt).parent is Some,
    ensures
        wf(move_post(pre, tgt, np)),
        anc_ids(move_post(pre, tgt, np), tgt, pre.nodes.len()) == seq![np] + anc_ids(
            pre,
            np,
            pre.nodes.len(),
        ),
        anc_ids(move_post(pre, tgt, np), tgt, pre.nodes.len())[0] == np,
        node_at(move_post(pre, tgt, np).nodes, tgt).parent == Some(np),
{
    lemma_move_wf(pre, tgt, np);
}

/// Round trip: exporting the arena that importing a well-formed record
/// tree builds reproduces the record tree's id and children structure
/// exactly, whatever the payload store holds.
pub proof fn lemma_import_export_round_trip<V>(r: RecordView<V>, pairs: Seq<(Seq<char>, V)>)
    requires
        rec_ok(r),
    ensures
        same_shape(
            export_view(
                TreeView { nodes: rec_nodes(r, None), root_id: rec_id(r) },
                pairs,
                rec_id(r),
                rec_nodes(r, None).len() as nat,
            ),
            r,
        ),
{
    let t = TreeView { nodes: rec_nodes(r, None), root_id: rec_id(r) };
    lemma_rec_nodes_ids(r, None);
    assert forall|i: int, j: int| 0 <= i < j < t.nodes.len() implies t.nodes[i].id
        != t.nodes[j].id by {
        assert(crate::model::ids_of(t.nodes)[i] == t.nodes[i].id);
        assert(crate::model::ids_of(t.nodes)[j] == t.nodes[j].id);
        assert(rec_ids(r)[i] != rec_ids(r)[j]);
    }
    lemma_rec_nodes_embedded(t, r, None);
    lemma_export_embedded(t, pairs, r, rec_nodes(r, None).len() as nat);
}

} // verus!
