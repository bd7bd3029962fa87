//! The mathematical model of the arena tree.
//!
//! An arena is modelled as a sequence of node views (the table entries in
//! insertion order) together with the id of the current root. Parent and
//! child links are id references into that sequence. Acyclicity is captured
//! by `reaches_root`: following parent links from any node must arrive at a
//! parent-less node within `nodes.len()` hops.

use vstd::prelude::*;
use vstd::set_lib::lemma_len_subset;

verus! {

/// The model of one arena entry: an id, the ids of the children in order,
/// and the id of the parent (absent only for the root).
#[verifier::ext_equal]
pub ghost struct NodeView {
    pub id: Seq<char>,
    pub children: Seq<Seq<char>>,
    pub parent: Option<Seq<char>>,
}

/// The model of a whole arena: the entries in insertion order, and the id
/// that the reserved root alias currently resolves to.
#[verifier::ext_equal]
pub ghost struct TreeView {
    pub nodes: Seq<NodeView>,
    pub root_id: Seq<char>,
}

/// The view of a sequence of owned id strings.
pub open spec fn views_of(ids: Seq<String>) -> Seq<Seq<char>> {
    ids.map_values(|s: String| s@)
}

/// The ids of a sequence of entries, in order.
pub open spec fn ids_of(nodes: Seq<NodeView>) -> Seq<Seq<char>> {
    nodes.map_values(|n: NodeView| n.id)
}

/// Whether some entry carries this id.
pub open spec fn has_id(nodes: Seq<NodeView>, id: Seq<char>) -> bool {
    exists|i: int| 0 <= i < nodes.len() && nodes[i].id == id
}

/// The index of the entry carrying this id (meaningful when `has_id` holds
/// and ids are unique).
pub open spec fn idx_of(nodes: Seq<NodeView>, id: Seq<char>) -> int {
    choose|i: int| 0 <= i < nodes.len() && nodes[i].id == id
}

/// The entry carrying this id.
pub open spec fn node_at(nodes: Seq<NodeView>, id: Seq<char>) -> NodeView {
    nodes[idx_of(nodes, id)]
}

/// No two entries share an id.
pub open spec fn unique_ids(nodes: Seq<NodeView>) -> bool {
    forall|i: int, j: int| 0 <= i < j < nodes.len() ==> nodes[i].id != nodes[j].id
}

/// Following parent links from `id` stays inside the table and arrives at a
/// parent-less entry within `fuel` hops.
pub open spec fn reaches_root(t: TreeView, id: Seq<char>, fuel: nat) -> bool
    decreases fuel,
{
    &&& has_id(t.nodes, id)
    &&& match node_at(t.nodes, id).parent {
        None => true,
        Some(p) => fuel > 0 && reaches_root(t, p, (fuel - 1) as nat),
    }
}

/// The number of parent hops from `id` to the parent-less entry, provided
/// the chain terminates within `fuel` hops.
pub open spec fn steps_to_root(t: TreeView, id: Seq<char>, fuel: nat) -> nat
    decreases fuel,
{
    match node_at(t.nodes, id).parent {
        None => 0,
        Some(p) => if fuel > 0 {
            (1 + steps_to_root(t, p, (fuel - 1) as nat)) as nat
        } else {
            0
        },
    }
}

/// The ancestor chain of `id`: immediate parent first, root last.
pub open spec fn anc_ids(t: TreeView, id: Seq<char>, fuel: nat) -> Seq<Seq<char>>
    decreases fuel,
{
    match node_at(t.nodes, id).parent {
        None => Seq::empty(),
        Some(p) => if fuel > 0 {
            seq![p] + anc_ids(t, p, (fuel - 1) as nat)
        } else {
            Seq::empty()
        },
    }
}

/// The depth of `id` below the root (0 for the root itself).
pub open spec fn depth_of(t: TreeView, id: Seq<char>) -> nat {
    steps_to_root(t, id, t.nodes.len())
}

/// Everything that well-formedness asks of the entry carrying `id`.
pub open spec fn wf_node(t: TreeView, id: Seq<char>) -> bool {
    let n = node_at(t.nodes, id);
    &&& n.id == id
    &&& (n.parent is None ==> id == t.root_id)
    &&& match n.parent {
        None => true,
        Some(p) => has_id(t.nodes, p) && node_at(t.nodes, p).children.contains(id),
    }
    &&& n.children.no_duplicates()
    &&& forall|j: int|
        0 <= j < n.children.len() ==> has_id(t.nodes, #[trigger] n.children[j]) && node_at(
            t.nodes,
            n.children[j],
        ).parent == Some(id)
    &&& reaches_root(t, id, t.nodes.len())
}

/// Well-formedness of a whole arena: ids are unique; the root alias resolves
/// to a parent-less entry; it is the only parent-less entry; parent and
/// child links agree with each other; every parent chain reaches the root.
pub open spec fn wf(t: TreeView) -> bool {
    &&& unique_ids(t.nodes)
    &&& has_id(t.nodes, t.root_id)
    &&& node_at(t.nodes, t.root_id).parent is None
    &&& forall|id: Seq<char>| #[trigger] has_id(t.nodes, id) ==> wf_node(t, id)
}

/// Chasing `idx_of` through `has_id`: the chosen index is in range and its
/// entry carries the id asked for.
pub proof fn lemma_node_at(nodes: Seq<NodeView>, id: Seq<char>)
    requires
        has_id(nodes, id),
    ensures
        0 <= idx_of(nodes, id) < nodes.len(),
        node_at(nodes, id).id == id,
{
    let i = choose|i: int| 0 <= i < nodes.len() && nodes[i].id == id;
    assert(nodes[i].id == id);
}

/// With unique ids, `idx_of` is the one index whose entry carries the id.
pub proof fn lemma_idx_of_is(nodes: Seq<NodeView>, id: Seq<char>, i: int)
    requires
        unique_ids(nodes),
        0 <= i < nodes.len(),
        nodes[i].id == id,
    ensures
        has_id(nodes, id),
        idx_of(nodes, id) == i,
        node_at(nodes, id) == nodes[i],
{
    assert(has_id(nodes, id));
    lemma_node_at(nodes, id);
    let j = idx_of(nodes, id);
    if i < j {
        assert(nodes[i].id != nodes[j].id);
    } else if j < i {
        assert(nodes[j].id != nodes[i].id);
    }
}

/// Reaching the root within some fuel means reaching it within any larger
/// fuel.
pub proof fn lemma_reaches_fuel_monotone(t: TreeView, id: Seq<char>, f1: nat, f2: nat)
    requires
        reaches_root(t, id, f1),
        f1 <= f2,
    ensures
        reaches_root(t, id, f2),
    decreases f1,
{
    match node_at(t.nodes, id).parent {
        None => {},
        Some(p) => {
            lemma_reaches_fuel_monotone(t, p, (f1 - 1) as nat, (f2 - 1) as nat);
        },
    }
}

/// Once the chain terminates, the hop count does not depend on the fuel.
pub proof fn lemma_steps_fuel_agree(t: TreeView, id: Seq<char>, f1: nat, f2: nat)
    requires
        reaches_root(t, id, f1),
        reaches_root(t, id, f2),
    ensures
        steps_to_root(t, id, f1) == steps_to_root(t, id, f2),
    decreases f1,
{
    match node_at(t.nodes, id).parent {
        None => {},
        Some(p) => {
            lemma_steps_fuel_agree(t, p, (f1 - 1) as nat, (f2 - 1) as nat);
        },
    }
}

/// Once the chain terminates, the ancestor chain does not depend on the
/// fuel.
pub proof fn lemma_anc_fuel_agree(t: TreeView, id: Seq<char>, f1: nat, f2: nat)
    requires
        reaches_root(t, id, f1),
        reaches_root(t, id, f2),
    ensures
        anc_ids(t, id, f1) == anc_ids(t, id, f2),
    decreases f1,
{
    match node_at(t.nodes, id).parent {
        None => {},
        Some(p) => {
            lemma_anc_fuel_agree(t, p, (f1 - 1) as nat, (f2 - 1) as nat);
        },
    }
}

/// The chain also terminates within exactly its hop count, hence within any
/// fuel at least that large.
pub proof fn lemma_reaches_above_steps(t: TreeView, id: Seq<char>, f: nat, g: nat)
    requires
        reaches_root(t, id, f),
        g >= steps_to_root(t, id, f),
    ensures
        reaches_root(t, id, g),
    decreases f,
{
    match node_at(t.nodes, id).parent {
        None => {},
        Some(p) => {
            lemma_reaches_above_steps(t, p, (f - 1) as nat, (g - 1) as nat);
        },
    }
}

/// What holds of every element of a terminating ancestor chain: its length
/// is the hop count, each ancestor is in the table, terminates itself, and
/// sits exactly one hop closer to the root than its predecessor.
pub proof fn lemma_anc_props(t: TreeView, id: Seq<char>, f: nat)
    requires
        reaches_root(t, id, f),
    ensures
        anc_ids(t, id, f).len() == steps_to_root(t, id, f),
        forall|k: int|
            0 <= k < anc_ids(t, id, f).len() ==> {
                let a = #[trigger] anc_ids(t, id, f)[k];
                &&& has_id(t.nodes, a)
                &&& reaches_root(t, a, f)
                &&& steps_to_root(t, a, f) == steps_to_root(t, id, f) - (k + 1)
            },
    decreases f,
{
    match node_at(t.nodes, id).parent {
        None => {},
        Some(p) => {
            let anc = anc_ids(t, id, f);
            let sub = anc_ids(t, p, (f - 1) as nat);
            lemma_anc_props(t, p, (f - 1) as nat);
            lemma_reaches_fuel_monotone(t, p, (f - 1) as nat, f);
            lemma_steps_fuel_agree(t, p, (f - 1) as nat, f);
            assert forall|k: int| 0 <= k < anc.len() implies {
                let a = #[trigger] anc[k];
                &&& has_id(t.nodes, a)
                &&& reaches_root(t, a, f)
                &&& steps_to_root(t, a, f) == steps_to_root(t, id, f) - (k + 1)
            } by {
                if k == 0 {
                    assert(anc[0] == p);
                } else {
                    assert(anc[k] == sub[k - 1]);
                    let a = sub[k - 1];
                    lemma_reaches_fuel_monotone(t, a, (f - 1) as nat, f);
                    lemma_steps_fuel_agree(t, a, (f - 1) as nat, f);
                }
            }
        },
    }
}

/// Pigeonhole: a terminating chain visits pairwise distinct entries of the
/// table, so its hop count is below the table's size, and it terminates
/// within fuel `t.nodes.len()` in particular.
pub proof fn lemma_steps_bound(t: TreeView, id: Seq<char>, f: nat)
    requires
        reaches_root(t, id, f),
    ensures
        steps_to_root(t, id, f) < t.nodes.len(),
        reaches_root(t, id, t.nodes.len()),
        steps_to_root(t, id, t.nodes.len()) == steps_to_root(t, id, f),
        anc_ids(t, id, t.nodes.len()) == anc_ids(t, id, f),
{
    broadcast use vstd::seq_lib::group_seq_properties;

    let anc = anc_ids(t, id, f);
    let chain = seq![id] + anc;
    let s = steps_to_root(t, id, f);
    lemma_anc_props(t, id, f);
    assert(chain.len() == s + 1);
    // Each chain element is one hop closer to the root than the one before,
    // so no id can occur twice.
    assert forall|k1: int, k2: int| 0 <= k1 < k2 < chain.len() implies chain[k1]
        != chain[k2] by {
        let s1 = steps_to_root(t, chain[k1], f);
        let s2 = steps_to_root(t, chain[k2], f);
        assert(s1 == s - k1);
        assert(s2 == s - k2);
    }
    assert(chain.no_duplicates());
    // Every chain element is the id of some table entry.
    let table = ids_of(t.nodes);
    assert forall|x: Seq<char>| chain.contains(x) implies table.contains(x) by {
        let k = choose|k: int| 0 <= k < chain.len() && chain[k] == x;
        assert(has_id(t.nodes, chain[k]));
        let i = choose|i: int| 0 <= i < t.nodes.len() && t.nodes[i].id == x;
        assert(table[i] == x);
    }
    assert(chain.to_set().subset_of(table.to_set()));
    chain.unique_seq_to_set();
    table.lemma_cardinality_of_set();
    lemma_len_subset(chain.to_set(), table.to_set());
    assert(s + 1 <= t.nodes.len());
    lemma_reaches_above_steps(t, id, f, t.nodes.len());
    lemma_steps_fuel_agree(t, id, f, t.nodes.len());
    lemma_anc_fuel_agree(t, id, f, t.nodes.len());
}

/// A terminating chain from a node with a parent passes through the root.
pub proof fn lemma_anc_contains_root(t: TreeView, id: Seq<char>, f: nat)
    requires
        wf(t),
        reaches_root(t, id, f),
        node_at(t.nodes, id).parent is Some,
    ensures
        anc_ids(t, id, f).contains(t.root_id),
    decreases f,
{
    let p = node_at(t.nodes, id).parent->Some_0;
    let anc = anc_ids(t, id, f);
    assert(anc[0] == p);
    if node_at(t.nodes, p).parent is None {
        assert(wf_node(t, p));
        assert(p == t.root_id);
        assert(anc.contains(p));
    } else {
        lemma_anc_contains_root(t, p, (f - 1) as nat);
        let sub = anc_ids(t, p, (f - 1) as nat);
        let k = choose|k: int| 0 <= k < sub.len() && sub[k] == t.root_id;
        assert(anc[k + 1] == t.root_id);
        assert(anc.contains(t.root_id));
    }
}

/// Termination transfers between two arenas that agree on which ids exist
/// and on every parent link on the chain in question. The ancestor chain
/// itself carries over unchanged.
///
/// The arena `t2` may disagree with `t1` on the parent of one id `tgt`, as
/// long as the chain being followed never passes through `tgt`.
pub proof fn lemma_reaches_avoid(
    t1: TreeView,
    t2: TreeView,
    tgt: Seq<char>,
    id: Seq<char>,
    f: nat,
)
    requires
        forall|y: Seq<char>| #[trigger]
            has_id(t1.nodes, y) && y != tgt ==> has_id(t2.nodes, y) && node_at(t2.nodes, y).parent
                == node_at(t1.nodes, y).parent,
        reaches_root(t1, id, f),
        id != tgt,
        !anc_ids(t1, id, f).contains(tgt),
    ensures
        reaches_root(t2, id, f),
        anc_ids(t2, id, f) == anc_ids(t1, id, f),
        steps_to_root(t2, id, f) == steps_to_root(t1, id, f),
    decreases f,
{
    match node_at(t1.nodes, id).parent {
        None => {},
        Some(p) => {
            let anc = anc_ids(t1, id, f);
            let sub = anc_ids(t1, p, (f - 1) as nat);
            assert(anc[0] == p);
            assert(anc.contains(anc[0]));
            assert(p != tgt);
            assert forall|x: Seq<char>| sub.contains(x) implies anc.contains(x) by {
                let k = choose|k: int| 0 <= k < sub.len() && sub[k] == x;
                assert(anc[k + 1] == x);
            }
            lemma_reaches_avoid(t1, t2, tgt, p, (f - 1) as nat);
        },
    }
}

/// Termination transfers wholesale between two arenas that agree on which
/// ids exist and on every parent link.
pub proof fn lemma_reaches_transfer(t1: TreeView, t2: TreeView, id: Seq<char>, f: nat)
    requires
        forall|y: Seq<char>| #[trigger]
            has_id(t1.nodes, y) ==> has_id(t2.nodes, y) && node_at(t2.nodes, y).parent == node_at(
                t1.nodes,
                y,
            ).parent,
        reaches_root(t1, id, f),
    ensures
        reaches_root(t2, id, f),
        anc_ids(t2, id, f) == anc_ids(t1, id, f),
        steps_to_root(t2, id, f) == steps_to_root(t1, id, f),
    decreases f,
{
    match node_at(t1.nodes, id).parent {
        None => {},
        Some(p) => {
            lemma_reaches_transfer(t1, t2, p, (f - 1) as nat);
        },
    }
}

/// After rewiring the parent of `tgt` to `np`, every chain that terminated
/// before still terminates: chains that never met `tgt` are unchanged, and
/// chains through `tgt` continue along the (unchanged) chain of `np`, which
/// the cycle check guarantees never to return to `tgt`.
pub proof fn lemma_reaches_after_reparent(
    t1: TreeView,
    t2: TreeView,
    tgt: Seq<char>,
    np: Seq<char>,
    id: Seq<char>,
    f: nat,
)
    requires
        forall|y: Seq<char>| #[trigger]
            has_id(t1.nodes, y) && y != tgt ==> has_id(t2.nodes, y) && node_at(t2.nodes, y).parent
                == node_at(t1.nodes, y).parent,
        has_id(t2.nodes, tgt),
        node_at(t2.nodes, tgt).parent == Some(np),
        np != tgt,
        reaches_root(t1, np, t1.nodes.len()),
        !anc_ids(t1, np, t1.nodes.len()).contains(tgt),
        reaches_root(t1, id, f),
    ensures
        reaches_root(t2, id, f + 1 + t1.nodes.len()),
    decreases f,
{
    let n1 = t1.nodes.len() as nat;
    if id == tgt {
        lemma_reaches_avoid(t1, t2, tgt, np, n1);
        lemma_reaches_fuel_monotone(t2, np, n1, (f + n1) as nat);
    } else {
        match node_at(t1.nodes, id).parent {
            None => {},
            Some(p) => {
                lemma_reaches_after_reparent(t1, t2, tgt, np, p, (f - 1) as nat);
            },
        }
    }
}

/// The arena after linking a new record `cid` under the existing record
/// `pid`: the parent's child list grows by `cid` and a fresh entry for
/// `cid` (no children, parent `pid`) is appended to the table.
pub open spec fn add_child_post(pre: TreeView, cid: Seq<char>, pid: Seq<char>) -> TreeView {
    let pidx = idx_of(pre.nodes, pid);
    let p0 = pre.nodes[pidx];
    let p1 = NodeView { id: p0.id, children: p0.children.push(cid), parent: p0.parent };
    let c = NodeView { id: cid, children: Seq::empty(), parent: Some(pid) };
    TreeView { nodes: pre.nodes.update(pidx, p1).push(c), root_id: pre.root_id }
}

/// Linking a fresh id under an existing record preserves well-formedness.
pub proof fn lemma_add_child_wf(pre: TreeView, cid: Seq<char>, pid: Seq<char>)
    requires
        wf(pre),
        !has_id(pre.nodes, cid),
        has_id(pre.nodes, pid),
    ensures
        wf(add_child_post(pre, cid, pid)),
        has_id(add_child_post(pre, cid, pid).nodes, cid),
        node_at(add_child_post(pre, cid, pid).nodes, cid) == (NodeView {
            id: cid,
            children: Seq::<Seq<char>>::empty(),
            parent: Some(pid),
        }),
        node_at(add_child_post(pre, cid, pid).nodes, pid).children == node_at(
            pre.nodes,
            pid,
        ).children.push(cid),
{
    let post = add_child_post(pre, cid, pid);
    let n = pre.nodes.len() as int;
    let pidx = idx_of(pre.nodes, pid);
    lemma_node_at(pre.nodes, pid);
    assert(wf_node(pre, pid));
    // Ids are untouched at every old index, and the new entry's id is new.
    assert(forall|i: int| 0 <= i < n ==> post.nodes[i].id == pre.nodes[i].id);
    assert forall|i: int, j: int| 0 <= i < j < post.nodes.len() implies post.nodes[i].id
        != post.nodes[j].id by {
        if j < n {
            assert(pre.nodes[i].id != pre.nodes[j].id);
        } else {
            if post.nodes[i].id == cid {
                assert(pre.nodes[i].id == cid);
                assert(has_id(pre.nodes, cid));
            }
        }
    }
    assert(unique_ids(post.nodes));
    // Every id of the old table is still there, with its parent link intact.
    assert forall|y: Seq<char>| #[trigger] has_id(pre.nodes, y) implies has_id(post.nodes, y)
        && node_at(post.nodes, y).parent == node_at(pre.nodes, y).parent && node_at(
        post.nodes,
        y,
    ).id == y by {
        let iy = choose|iy: int| 0 <= iy < n && pre.nodes[iy].id == y;
        lemma_idx_of_is(pre.nodes, y, iy);
        assert(post.nodes[iy].id == y);
        lemma_idx_of_is(post.nodes, y, iy);
    }
    lemma_idx_of_is(post.nodes, cid, n);
    lemma_idx_of_is(post.nodes, pid, pidx);
    // The root is unchanged.
    assert(node_at(post.nodes, post.root_id).parent is None);
    // Each entry of the new table is well formed.
    assert forall|id: Seq<char>| #[trigger] has_id(post.nodes, id) implies wf_node(post, id) by {
        let i = choose|i: int| 0 <= i < post.nodes.len() && post.nodes[i].id == id;
        lemma_idx_of_is(post.nodes, id, i);
        if i == n {
            // The new entry: linked under `pid`, no children, reaches the
            // root through `pid`'s unchanged chain.
            assert(node_at(post.nodes, pid).children.contains(id)) by {
                let pc = node_at(post.nodes, pid).children;
                assert(pc[pc.len() - 1] == cid);
            }
            assert(reaches_root(post, id, post.nodes.len() as nat)) by {
                assert(reaches_root(pre, pid, pre.nodes.len() as nat));
                lemma_reaches_transfer(pre, post, pid, pre.nodes.len() as nat);
            }
            assert(wf_node(post, id));
        } else {
            let y = id;
            assert(pre.nodes[i].id == y);
            lemma_idx_of_is(pre.nodes, y, i);
            assert(has_id(pre.nodes, y));
            assert(wf_node(pre, y));
            let n0 = node_at(pre.nodes, y);
            let n1 = node_at(post.nodes, y);
            assert(n1.id == y && n1.parent == n0.parent);
            // Parent link: the parent's child list only ever grows.
            match n1.parent {
                None => {
                    assert(y == pre.root_id);
                },
                Some(q) => {
                    assert(has_id(pre.nodes, q));
                    let iq = choose|iq: int| 0 <= iq < n && pre.nodes[iq].id == q;
                    lemma_idx_of_is(pre.nodes, q, iq);
                    lemma_idx_of_is(post.nodes, q, iq);
                    assert(node_at(pre.nodes, q).children.contains(y));
                    if iq == pidx {
                        let c0 = node_at(pre.nodes, q).children;
                        let k = choose|k: int| 0 <= k < c0.len() && c0[k] == y;
                        assert(node_at(post.nodes, q).children[k] == y);
                    }
                    assert(node_at(post.nodes, q).children.contains(y));
                },
            }
            // Child links: old children are untouched entries; the one new
            // child id points back at `pid`.
            if i == pidx {
                assert(n1.children == n0.children.push(cid));
                assert(y == pid);
                assert forall|x: Seq<char>| n0.children.contains(x) implies has_id(
                    pre.nodes,
                    x,
                ) by {
                    let k = choose|k: int| 0 <= k < n0.children.len() && n0.children[k] == x;
                }
                assert(!n0.children.contains(cid));
                assert(n1.children.no_duplicates());
                assert forall|j: int| 0 <= j < n1.children.len() implies has_id(
                    post.nodes,
                    #[trigger] n1.children[j],
                ) && node_at(post.nodes, n1.children[j]).parent == Some(y) by {
                    if j < n0.children.len() {
                        assert(n0.children[j] == n1.children[j]);
                        assert(has_id(pre.nodes, n0.children[j]));
                        assert(node_at(pre.nodes, n0.children[j]).parent == Some(y));
                    } else {
                        assert(n1.children[j] == cid);
                    }
                }
            } else {
                assert(n1.children == n0.children);
                assert forall|j: int| 0 <= j < n1.children.len() implies has_id(
                    post.nodes,
                    #[trigger] n1.children[j],
                ) && node_at(post.nodes, n1.children[j]).parent == Some(y) by {
                    assert(has_id(pre.nodes, n0.children[j]));
                    assert(node_at(pre.nodes, n0.children[j]).parent == Some(y));
                }
            }
            // Termination: the chain is the old one.
            assert(reaches_root(post, y, post.nodes.len() as nat)) by {
                assert(reaches_root(pre, y, pre.nodes.len() as nat));
                lemma_reaches_transfer(pre, post, y, pre.nodes.len() as nat);
                lemma_reaches_fuel_monotone(
                    post,
                    y,
                    pre.nodes.len() as nat,
                    post.nodes.len() as nat,
                );
            }
            assert(wf_node(post, y));
        }
    }
}

/// What removing the first occurrence of a value does to a duplicate-free
/// sequence: exactly that value disappears and everything else stays.
pub proof fn lemma_remove_value_props(s: Seq<Seq<char>>, v: Seq<char>)
    requires
        s.no_duplicates(),
        s.contains(v),
    ensures
        s.remove_value(v).len() == s.len() - 1,
        s.remove_value(v).no_duplicates(),
        !s.remove_value(v).contains(v),
        forall|x: Seq<char>| x != v ==> (s.remove_value(v).contains(x) <==> s.contains(x)),
{
    s.index_of_first_ensures(v);
    let i = s.index_of_first(v)->Some_0;
    let r = s.remove(i);
    s.remove_ensures(i);
    assert forall|x: Seq<char>| r.contains(x) implies x == v || s.contains(x) by {
        let k = choose|k: int| 0 <= k < r.len() && r[k] == x;
        if k < i {
            assert(s[k] == x);
        } else {
            assert(s[k + 1] == x);
        }
    }
    assert forall|x: Seq<char>| x != v && s.contains(x) implies r.contains(x) by {
        let k = choose|k: int| 0 <= k < s.len() && s[k] == x;
        if k < i {
            assert(r[k] == x);
        } else {
            assert(k != i);
            assert(r[k - 1] == s[k]);
        }
    }
    assert forall|k: int| 0 <= k < r.len() implies r[k] != v by {
        if k < i {
            assert(r[k] == s[k]);
        } else {
            assert(r[k] == s[k + 1]);
            assert(s[i] == v);
        }
    }
    assert forall|k1: int, k2: int| 0 <= k1 < k2 < r.len() implies r[k1] != r[k2] by {
        let j1: int = if k1 < i {
            k1
        } else {
            k1 + 1
        };
        let j2: int = if k2 < i {
            k2
        } else {
            k2 + 1
        };
        assert(r[k1] == s[j1]);
        assert(r[k2] == s[j2]);
    }
}

/// The arena after reparenting `tgt` under `np`: `tgt`'s id leaves its old
/// parent's child list, joins `np`'s child list at the end, and `tgt`'s
/// parent link is rewritten to `np`.
pub open spec fn move_post(pre: TreeView, tgt: Seq<char>, np: Seq<char>) -> TreeView {
    let op = node_at(pre.nodes, tgt).parent->Some_0;
    let tidx = idx_of(pre.nodes, tgt);
    let opidx = idx_of(pre.nodes, op);
    let npidx = idx_of(pre.nodes, np);
    let o0 = pre.nodes[opidx];
    let nodes1 = pre.nodes.update(
        opidx,
        NodeView { id: o0.id, children: o0.children.remove_value(tgt), parent: o0.parent },
    );
    let p0 = nodes1[npidx];
    let nodes2 = nodes1.update(
        npidx,
        NodeView { id: p0.id, children: p0.children.push(tgt), parent: p0.parent },
    );
    let t0 = nodes2[tidx];
    let nodes3 = nodes2.update(
        tidx,
        NodeView { id: t0.id, children: t0.children, parent: Some(np) },
    );
    TreeView { nodes: nodes3, root_id: pre.root_id }
}

/// No entry of a well-formed arena is its own parent: the chain from such
/// an entry could never terminate.
pub proof fn lemma_no_self_parent(t: TreeView, id: Seq<char>, f: nat)
    requires
        reaches_root(t, id, f),
    ensures
        node_at(t.nodes, id).parent != Some(id),
    decreases f,
{
    if node_at(t.nodes, id).parent == Some(id) {
        lemma_no_self_parent(t, id, (f - 1) as nat);
    }
}

/// Reparenting below a node that is neither the target itself nor one of
/// the target's descendants preserves well-formedness, and afterwards the
/// target's ancestor chain is the new parent followed by the new parent's
/// own (unchanged) chain.
pub proof fn lemma_move_wf(pre: TreeView, tgt: Seq<char>, np: Seq<char>)
    requires
        wf(pre),
        has_id(pre.nodes, tgt),
        has_id(pre.nodes, np),
        tgt != np,
        !anc_ids(pre, np, pre.nodes.len()).contains(tgt),
        node_at(pre.nodes, tgt).parent is Some,
    ensures
        wf(move_post(pre, tgt, np)),
        move_post(pre, tgt, np).nodes.len() == pre.nodes.len(),
        forall|y: Seq<char>|
            has_id(move_post(pre, tgt, np).nodes, y) <==> has_id(pre.nodes, y),
        node_at(move_post(pre, tgt, np).nodes, tgt) == (NodeView {
            id: tgt,
            children: node_at(pre.nodes, tgt).children,
            parent: Some(np),
        }),
        node_at(move_post(pre, tgt, np).nodes, np).children.last() == tgt,
        anc_ids(move_post(pre, tgt, np), tgt, pre.nodes.len()) == seq![np] + anc_ids(
            pre,
            np,
            pre.nodes.len(),
        ),
{
    let post = move_post(pre, tgt, np);
    let n = pre.nodes.len() as nat;
    let op = node_at(pre.nodes, tgt).parent->Some_0;
    let tidx = idx_of(pre.nodes, tgt);
    let opidx = idx_of(pre.nodes, op);
    let npidx = idx_of(pre.nodes, np);
    lemma_node_at(pre.nodes, tgt);
    lemma_node_at(pre.nodes, np);
    assert(wf_node(pre, tgt));
    assert(has_id(pre.nodes, op));
    lemma_node_at(pre.nodes, op);
    assert(wf_node(pre, op));
    assert(wf_node(pre, np));
    // The target is not its own parent, so the three indices relate as:
    // tidx differs from opidx and from npidx; opidx may equal npidx.
    lemma_no_self_parent(pre, tgt, n);
    assert(op != tgt);
    assert(tidx != opidx) by {
        lemma_idx_of_is(pre.nodes, tgt, tidx);
        lemma_idx_of_is(pre.nodes, op, opidx);
    }
    assert(tidx != npidx) by {
        lemma_idx_of_is(pre.nodes, tgt, tidx);
        lemma_idx_of_is(pre.nodes, np, npidx);
    }
    // The target has a parent, so it is not the root.
    assert(tgt != pre.root_id);
    // Ids are untouched entry by entry.
    assert(forall|i: int| 0 <= i < n ==> post.nodes[i].id == pre.nodes[i].id);
    assert(unique_ids(post.nodes));
    assert forall|y: Seq<char>| has_id(post.nodes, y) <==> has_id(pre.nodes, y) by {
        if has_id(post.nodes, y) {
            let i = choose|i: int| 0 <= i < post.nodes.len() && post.nodes[i].id == y;
            assert(pre.nodes[i].id == y);
        }
        if has_id(pre.nodes, y) {
            let i = choose|i: int| 0 <= i < n && pre.nodes[i].id == y;
            assert(post.nodes[i].id == y);
        }
    }
    // Only the target's parent link changes.
    assert forall|y: Seq<char>| #[trigger] has_id(pre.nodes, y) && y != tgt implies has_id(
        post.nodes,
        y,
    ) && node_at(post.nodes, y).parent == node_at(pre.nodes, y).parent && node_at(
        post.nodes,
        y,
    ).id == y by {
        let iy = choose|iy: int| 0 <= iy < n && pre.nodes[iy].id == y;
        lemma_idx_of_is(pre.nodes, y, iy);
        lemma_idx_of_is(post.nodes, y, iy);
    }
    lemma_idx_of_is(post.nodes, tgt, tidx);
    lemma_idx_of_is(post.nodes, op, opidx);
    lemma_idx_of_is(post.nodes, np, npidx);
    assert(node_at(post.nodes, tgt) == NodeView {
        id: tgt,
        children: node_at(pre.nodes, tgt).children,
        parent: Some(np),
    });
    // The old parent's children were duplicate-free and contained the
    // target exactly once.
    let oc0 = node_at(pre.nodes, op).children;
    lemma_remove_value_props(oc0, tgt);
    // The new parent's children did not contain the target (that would
    // make the new parent the old one, whose list just dropped it).
    assert(node_at(post.nodes, np).children == if np == op {
        oc0.remove_value(tgt).push(tgt)
    } else {
        node_at(pre.nodes, np).children.push(tgt)
    });
    assert(np == op || !node_at(pre.nodes, np).children.contains(tgt)) by {
        if np != op && node_at(pre.nodes, np).children.contains(tgt) {
            assert(node_at(pre.nodes, tgt).parent == Some(np));
        }
    }
    // The root keeps its place.
    assert(node_at(post.nodes, post.root_id).parent is None) by {
        assert(node_at(pre.nodes, pre.root_id).parent is None);
    }
    // Termination for every entry, via the reparenting lemma and the
    // pigeonhole bound.
    assert(reaches_root(pre, np, n));
    assert forall|y: Seq<char>| #[trigger] has_id(post.nodes, y) implies reaches_root(
        post,
        y,
        n,
    ) by {
        assert(has_id(pre.nodes, y));
        assert(wf_node(pre, y));
        assert(reaches_root(pre, y, n));
        lemma_reaches_after_reparent(pre, post, tgt, np, y, n);
        lemma_steps_bound(post, y, (n + 1 + n) as nat);
    }
    // Each entry of the new table is well formed.
    assert forall|y: Seq<char>| #[trigger] has_id(post.nodes, y) implies wf_node(post, y) by {
        assert(has_id(pre.nodes, y));
        assert(wf_node(pre, y));
        let n0 = node_at(pre.nodes, y);
        let n1 = node_at(post.nodes, y);
        assert(n1.id == y);
        // Parent side.
        if y == tgt {
            assert(n1.parent == Some(np));
            assert(node_at(post.nodes, np).children.contains(tgt)) by {
                let c = node_at(post.nodes, np).children;
                assert(c[c.len() - 1] == tgt);
            }
        } else {
            assert(n1.parent == n0.parent);
            match n0.parent {
                None => {
                    assert(y == pre.root_id);
                },
                Some(q) => {
                    assert(has_id(post.nodes, q));
                    assert(node_at(pre.nodes, q).children.contains(y));
                    assert(node_at(post.nodes, q).children.contains(y)) by {
                        lemma_idx_of_is(
                            pre.nodes,
                            q,
                            choose|i: int| 0 <= i < n && pre.nodes[i].id == q,
                        );
                        lemma_idx_of_is(post.nodes, q, idx_of(pre.nodes, q));
                        if q == op {
                            assert(y != tgt);
                            if q == np {
                                let c = node_at(post.nodes, np).children;
                                assert(oc0.remove_value(tgt).contains(y));
                                let k = choose|k: int|
                                    0 <= k < oc0.remove_value(tgt).len() && oc0.remove_value(
                                        tgt,
                                    )[k] == y;
                                assert(c[k] == y);
                            } else {
                                assert(node_at(post.nodes, q).children == oc0.remove_value(tgt));
                            }
                        } else if q == np {
                            let c = node_at(post.nodes, np).children;
                            let c0 = node_at(pre.nodes, np).children;
                            let k = choose|k: int| 0 <= k < c0.len() && c0[k] == y;
                            assert(c[k] == y);
                        } else {
                            assert(node_at(post.nodes, q).children == node_at(
                                pre.nodes,
                                q,
                            ).children);
                        }
                    }
                },
            }
        }
        // Children side.
        let kids = n1.children;
        assert(kids.no_duplicates() && forall|j: int|
            0 <= j < kids.len() ==> has_id(post.nodes, #[trigger] kids[j]) && node_at(
                post.nodes,
                kids[j],
            ).parent == Some(y)) by {
            // A child id other than the target kept its parent link; the
            // target itself occurs only in the new parent's list.
            assert forall|x: Seq<char>| n0.children.contains(x) && x != tgt implies has_id(
                post.nodes,
                x,
            ) && node_at(post.nodes, x).parent == Some(y) by {
                let k = choose|k: int| 0 <= k < n0.children.len() && n0.children[k] == x;
                assert(has_id(pre.nodes, x));
                assert(node_at(pre.nodes, x).parent == Some(y));
            }
            assert forall|x: Seq<char>| n0.children.contains(x) && x == tgt implies y == op by {
                let k = choose|k: int| 0 <= k < n0.children.len() && n0.children[k] == x;
                assert(node_at(pre.nodes, tgt).parent == Some(y));
            }
            if y == op && y == np {
                assert(kids == oc0.remove_value(tgt).push(tgt));
                assert forall|j: int| 0 <= j < kids.len() implies has_id(
                    post.nodes,
                    #[trigger] kids[j],
                ) && node_at(post.nodes, kids[j]).parent == Some(y) by {
                    if j < kids.len() - 1 {
                        assert(oc0.remove_value(tgt).contains(kids[j]));
                        assert(kids[j] != tgt);
                        assert(oc0.contains(kids[j]));
                    } else {
                        assert(kids[j] == tgt);
                    }
                }
                assert(kids.no_duplicates()) by {
                    let base = oc0.remove_value(tgt);
                    assert forall|k1: int, k2: int| 0 <= k1 < k2 < kids.len() implies kids[k1]
                        != kids[k2] by {
                        if k2 == kids.len() - 1 {
                            assert(base.contains(kids[k1]));
                            assert(kids[k1] != tgt);
                        }
                    }
                }
            } else if y == op {
                assert(kids == oc0.remove_value(tgt));
                assert forall|j: int| 0 <= j < kids.len() implies has_id(
                    post.nodes,
                    #[trigger] kids[j],
                ) && node_at(post.nodes, kids[j]).parent == Some(y) by {
                    assert(kids.contains(kids[j]));
                    assert(kids[j] != tgt);
                    assert(oc0.contains(kids[j]));
                }
            } else if y == np {
                let c0 = node_at(pre.nodes, np).children;
                assert(kids == c0.push(tgt));
                assert forall|j: int| 0 <= j < kids.len() implies has_id(
                    post.nodes,
                    #[trigger] kids[j],
                ) && node_at(post.nodes, kids[j]).parent == Some(y) by {
                    if j < kids.len() - 1 {
                        assert(c0.contains(kids[j]));
                        assert(kids[j] != tgt);
                    } else {
                        assert(kids[j] == tgt);
                    }
                }
                assert(kids.no_duplicates()) by {
                    assert(!c0.contains(tgt));
                    assert forall|k1: int, k2: int| 0 <= k1 < k2 < kids.len() implies kids[k1]
                        != kids[k2] by {
                        if k2 == kids.len() - 1 {
                            assert(c0.contains(kids[k1]));
                        }
                    }
                }
            } else {
                assert(kids == n0.children);
                assert forall|j: int| 0 <= j < kids.len() implies has_id(
                    post.nodes,
                    #[trigger] kids[j],
                ) && node_at(post.nodes, kids[j]).parent == Some(y) by {
                    assert(kids.contains(kids[j]));
                    assert(kids[j] != tgt) by {
                        if kids[j] == tgt {
                            assert(n0.children.contains(tgt));
                        }
                    }
                }
            }
        }
        assert(wf_node(post, y));
    }
    // The target's new ancestor chain: the new parent, then the new
    // parent's old chain, which the move never touched.
    assert(anc_ids(post, tgt, n) == seq![np] + anc_ids(pre, np, n)) by {
        lemma_reaches_avoid(pre, post, tgt, np, n);
        lemma_steps_bound(post, np, n);
        lemma_reaches_above_steps(post, np, n, (n - 1) as nat);
        lemma_anc_fuel_agree(post, np, (n - 1) as nat, n);
        assert(n > 0);
        assert(anc_ids(post, tgt, n) == seq![np] + anc_ids(post, np, (n - 1) as nat));
    }
}

/// A child sits exactly one hop deeper than its parent.
pub proof fn lemma_child_depth(t: TreeView, id: Seq<char>, c: Seq<char>)
    requires
        wf(t),
        has_id(t.nodes, id),
        has_id(t.nodes, c),
        node_at(t.nodes, c).parent == Some(id),
    ensures
        depth_of(t, c) == depth_of(t, id) + 1,
{
    let n = t.nodes.len() as nat;
    assert(wf_node(t, c));
    assert(reaches_root(t, c, n));
    lemma_reaches_fuel_monotone(t, id, (n - 1) as nat, n);
    lemma_steps_fuel_agree(t, id, (n - 1) as nat, n);
}

/// Pushing onto a sequence of strings pushes the view onto the sequence of
/// views.
pub proof fn lemma_views_of_push(ids: Seq<String>, s: String)
    ensures
        views_of(ids.push(s)) == views_of(ids).push(s@),
{
    assert(views_of(ids.push(s)) =~= views_of(ids).push(s@));
}

} // verus!
