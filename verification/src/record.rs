//! Bulk import and export: the recursive record shape exchanged with the
//! outside world, and its walks into and out of the arena.
//!
//! A record carries an id, an optional opaque payload value and an ordered
//! sequence of child records. Import validates the input (every record must
//! carry an id) before any node is created, then builds a fresh arena that
//! mirrors the record's shape, handing the payload values out as
//! `(id, value)` pairs for the caller's payload store. Export walks the
//! arena from the root and rebuilds the record shape, attaching to each
//! node whatever the payload store holds for its id.

use vstd::prelude::*;

use crate::arena::{NodeMap, TreeMap};
use crate::error::TreeError;
use crate::model::{
    NodeView, TreeView, add_child_post, has_id, idx_of, ids_of, lemma_idx_of_is, views_of,
};

verus! {

/// The recursive record shape. The id is required for import but may be
/// absent in raw input; a missing id is rejected before any mutation. The
/// payload is never stored in the tree itself.
#[verifier::reject_recursive_types(V)]
pub struct Record<V> {
    pub id: Option<String>,
    pub data: Option<V>,
    pub children: Vec<Record<V>>,
}

/// The view of a record: ids as character sequences, payload as is.
#[verifier::reject_recursive_types(V)]
#[verifier::ext_equal]
pub ghost struct RecordView<V> {
    pub id: Option<Seq<char>>,
    pub data: Option<V>,
    pub children: Seq<RecordView<V>>,
}

/// The views of the first `j` records of a sequence, in order.
pub open spec fn rec_views_prefix<V>(rs: Seq<Record<V>>, j: int) -> Seq<RecordView<V>>
    decreases rs, j, 0int,
{
    if j <= 0 || j > rs.len() {
        Seq::empty()
    } else {
        rec_views_prefix(rs, j - 1).push(rec_view(rs[j - 1]))
    }
}

/// The view of a record tree.
pub open spec fn rec_view<V>(r: Record<V>) -> RecordView<V>
    decreases r, 1int,
{
    RecordView {
        id: match r.id {
            None => None,
            Some(s) => Some(s@),
        },
        data: r.data,
        children: rec_views_prefix(r.children@, r.children@.len() as int),
    }
}

impl<V> View for Record<V> {
    type V = RecordView<V>;

    open spec fn view(&self) -> RecordView<V> {
        rec_view(*self)
    }
}

/// What the first `j` views of a record sequence are, element by element.
pub proof fn lemma_rec_views_prefix<V>(rs: Seq<Record<V>>, j: int)
    requires
        0 <= j <= rs.len(),
    ensures
        rec_views_prefix(rs, j).len() == j,
        forall|k: int| 0 <= k < j ==> rec_views_prefix(rs, j)[k] == rec_view(rs[k]),
    decreases j,
{
    if j > 0 {
        lemma_rec_views_prefix(rs, j - 1);
    }
}

/// The id a record claims to carry (meaningful when it has one).
pub open spec fn rec_id<V>(r: RecordView<V>) -> Seq<char> {
    r.id->Some_0
}

/// Whether the first `j` records of a sequence all carry ids, recursively.
pub open spec fn ids_ok_prefix<V>(rs: Seq<RecordView<V>>, j: int) -> bool
    decreases rs, j, 0int,
{
    if j <= 0 || j > rs.len() {
        true
    } else {
        ids_ok_prefix(rs, j - 1) && ids_ok(rs[j - 1])
    }
}

/// Whether every record of the tree carries an id.
pub open spec fn ids_ok<V>(r: RecordView<V>) -> bool
    decreases r, 1int,
{
    r.id is Some && ids_ok_prefix(r.children, r.children.len() as int)
}

/// The ids of the first `j` record trees of a sequence, pre-order.
pub open spec fn rec_ids_prefix<V>(rs: Seq<RecordView<V>>, j: int) -> Seq<Seq<char>>
    decreases rs, j, 0int,
{
    if j <= 0 || j > rs.len() {
        Seq::empty()
    } else {
        rec_ids_prefix(rs, j - 1) + rec_ids(rs[j - 1])
    }
}

/// All ids of the record tree, pre-order: the record's own id first, then
/// the ids of each child subtree in order.
pub open spec fn rec_ids<V>(r: RecordView<V>) -> Seq<Seq<char>>
    decreases r, 1int,
{
    seq![rec_id(r)] + rec_ids_prefix(r.children, r.children.len() as int)
}

/// The ids that the children of a record claim, in order.
pub open spec fn child_ids<V>(rs: Seq<RecordView<V>>) -> Seq<Seq<char>> {
    Seq::new(rs.len(), |i: int| rec_id(rs[i]))
}

/// The arena entries that importing the first `j` subtrees of a child
/// sequence appends, pre-order.
pub open spec fn rec_nodes_prefix<V>(rs: Seq<RecordView<V>>, pid: Seq<char>, j: int) -> Seq<
    NodeView,
>
    decreases rs, j, 0int,
{
    if j <= 0 || j > rs.len() {
        Seq::empty()
    } else {
        rec_nodes_prefix(rs, pid, j - 1) + rec_nodes(rs[j - 1], Some(pid))
    }
}

/// The arena entries that importing this record tree appends, pre-order:
/// the record's own entry (its children fully linked), then each child
/// subtree's entries in order.
pub open spec fn rec_nodes<V>(r: RecordView<V>, parent: Option<Seq<char>>) -> Seq<NodeView>
    decreases r, 1int,
{
    seq![
        NodeView { id: rec_id(r), children: child_ids(r.children), parent },
    ] + rec_nodes_prefix(r.children, rec_id(r), r.children.len() as int)
}

/// The payload pairs of the first `j` subtrees of a child sequence.
pub open spec fn rec_pairs_prefix<V>(rs: Seq<RecordView<V>>, j: int) -> Seq<(Seq<char>, V)>
    decreases rs, j, 0int,
{
    if j <= 0 || j > rs.len() {
        Seq::empty()
    } else {
        rec_pairs_prefix(rs, j - 1) + rec_pairs(rs[j - 1])
    }
}

/// The `(id, value)` pairs of every record of the tree that carries a
/// payload, pre-order.
pub open spec fn rec_pairs<V>(r: RecordView<V>) -> Seq<(Seq<char>, V)>
    decreases r, 1int,
{
    (match r.data {
        None => Seq::empty(),
        Some(v) => seq![(rec_id(r), v)],
    }) + rec_pairs_prefix(r.children, r.children.len() as int)
}

/// Whether any id other than the record tree's own root id is the reserved
/// alias.
pub open spec fn has_reserved<V>(r: RecordView<V>) -> bool {
    exists|k: int| 1 <= k < rec_ids(r).len() && rec_ids(r)[k] == "root"@
}

/// A record tree that import accepts: every record carries an id, no id
/// occurs twice, and no id below the root is the reserved alias.
pub open spec fn rec_ok<V>(r: RecordView<V>) -> bool {
    &&& ids_ok(r)
    &&& rec_ids(r).no_duplicates()
    &&& !has_reserved(r)
}

/// The view of a vector of owned payload pairs.
pub open spec fn pairs_view<V>(s: Seq<(String, V)>) -> Seq<(Seq<char>, V)> {
    s.map_values(|p: (String, V)| (p.0@, p.1))
}

/// The payload stored under `id`, scanning the pairs from `i` on: the
/// first match wins.
pub open spec fn lookup_from<V>(pairs: Seq<(Seq<char>, V)>, i: int, id: Seq<char>) -> Option<V>
    decreases pairs.len() - i,
{
    if i < 0 || i >= pairs.len() {
        None
    } else if pairs[i].0 == id {
        Some(pairs[i].1)
    } else {
        lookup_from(pairs, i + 1, id)
    }
}

/// The payload stored under `id`, if any.
pub open spec fn assoc_lookup<V>(pairs: Seq<(Seq<char>, V)>, id: Seq<char>) -> Option<V> {
    lookup_from(pairs, 0, id)
}

/// The record trees that exporting the first `j` of these child ids
/// produces. The fuel bounds the walk's depth; a well-formed arena is
/// always exported with enough of it.
pub open spec fn export_children_prefix<V>(
    t: TreeView,
    pairs: Seq<(Seq<char>, V)>,
    cs: Seq<Seq<char>>,
    fuel: nat,
    j: int,
) -> Seq<RecordView<V>>
    decreases fuel, 0int, j,
{
    if j <= 0 || j > cs.len() || fuel == 0 {
        Seq::empty()
    } else {
        export_children_prefix(t, pairs, cs, fuel, j - 1).push(
            export_view(t, pairs, cs[j - 1], (fuel - 1) as nat),
        )
    }
}

/// The record tree that exporting the entry carrying `id` produces: the id
/// itself, whatever the payload store holds for it, and each child
/// subtree in order.
pub open spec fn export_view<V>(
    t: TreeView,
    pairs: Seq<(Seq<char>, V)>,
    id: Seq<char>,
    fuel: nat,
) -> RecordView<V>
    decreases fuel, 1int, 0int,
{
    let cs = crate::model::node_at(t.nodes, id).children;
    RecordView {
        id: Some(id),
        data: assoc_lookup(pairs, id),
        children: export_children_prefix(t, pairs, cs, fuel, cs.len() as int),
    }
}

/// Whether the first `j` record pairs agree in shape.
pub open spec fn same_shape_prefix<V>(
    xs: Seq<RecordView<V>>,
    ys: Seq<RecordView<V>>,
    j: int,
) -> bool
    decreases xs, j, 0int,
{
    if j <= 0 || j > xs.len() || j > ys.len() {
        true
    } else {
        same_shape_prefix(xs, ys, j - 1) && same_shape(xs[j - 1], ys[j - 1])
    }
}

/// Whether two record trees agree on their id and children structure,
/// record by record (payload left aside).
pub open spec fn same_shape<V>(x: RecordView<V>, y: RecordView<V>) -> bool
    decreases x, 1int,
{
    &&& x.id == y.id
    &&& x.children.len() == y.children.len()
    &&& same_shape_prefix(x.children, y.children, x.children.len() as int)
}

/// Shape agreement of a prefix only looks at that prefix.
pub proof fn lemma_same_shape_prefix_ext<V>(
    xs: Seq<RecordView<V>>,
    xs2: Seq<RecordView<V>>,
    ys: Seq<RecordView<V>>,
    i: int,
)
    requires
        0 <= i <= xs.len(),
        i <= xs2.len(),
        forall|k: int| 0 <= k < i ==> xs[k] == xs2[k],
    ensures
        same_shape_prefix(xs, ys, i) == same_shape_prefix(xs2, ys, i),
    decreases i,
{
    if i > 0 {
        lemma_same_shape_prefix_ext(xs, xs2, ys, i - 1);
    }
}

/// Whether the first `j` records of a sequence are all embedded in the
/// arena `t`.
pub open spec fn embedded_prefix<V>(t: TreeView, rs: Seq<RecordView<V>>, j: int) -> bool
    decreases rs, j, 0int,
{
    if j <= 0 || j > rs.len() {
        true
    } else {
        embedded_prefix(t, rs, j - 1) && embedded(t, rs[j - 1])
    }
}

/// Whether the record tree is embedded in the arena `t`: each of its
/// records has an entry under its id whose child list is exactly the ids
/// of the record's children.
pub open spec fn embedded<V>(t: TreeView, r: RecordView<V>) -> bool
    decreases r, 1int,
{
    &&& r.id is Some
    &&& has_id(t.nodes, rec_id(r))
    &&& crate::model::node_at(t.nodes, rec_id(r)).children == child_ids(r.children)
    &&& embedded_prefix(t, r.children, r.children.len() as int)
}

/// Whatever an imported subtree's entry list holds, the longer prefixes
/// hold too.
pub proof fn lemma_rec_nodes_prefix_contains<V>(
    rs: Seq<RecordView<V>>,
    pid: Seq<char>,
    j: int,
    m: int,
)
    requires
        0 <= j < m <= rs.len(),
    ensures
        forall|x: NodeView|
            rec_nodes(rs[j], Some(pid)).contains(x) ==> #[trigger] rec_nodes_prefix(
                rs,
                pid,
                m,
            ).contains(x),
    decreases m,
{
    if m == j + 1 {
        assert forall|x: NodeView| rec_nodes(rs[j], Some(pid)).contains(x) implies rec_nodes_prefix(
            rs,
            pid,
            m,
        ).contains(x) by {
            let k = choose|k: int|
                0 <= k < rec_nodes(rs[j], Some(pid)).len() && rec_nodes(rs[j], Some(pid))[k] == x;
            assert(rec_nodes_prefix(rs, pid, m)[rec_nodes_prefix(rs, pid, j).len() + k] == x);
        }
    } else {
        lemma_rec_nodes_prefix_contains(rs, pid, j, m - 1);
        assert forall|x: NodeView| rec_nodes(rs[j], Some(pid)).contains(x) implies rec_nodes_prefix(
            rs,
            pid,
            m,
        ).contains(x) by {
            assert(rec_nodes_prefix(rs, pid, m - 1).contains(x));
            let k = choose|k: int|
                0 <= k < rec_nodes_prefix(rs, pid, m - 1).len() && #[trigger] rec_nodes_prefix(
                    rs,
                    pid,
                    m - 1,
                )[k] == x;
            assert(rec_nodes_prefix(rs, pid, m)[k] == x);
        }
    }
}

/// A record tree whose imported entries all sit in an arena with unique
/// ids is embedded in that arena.
pub proof fn lemma_rec_nodes_embedded<V>(t: TreeView, r: RecordView<V>, parent: Option<Seq<char>>)
    requires
        crate::model::unique_ids(t.nodes),
        ids_ok(r),
        forall|x: NodeView| rec_nodes(r, parent).contains(x) ==> #[trigger] t.nodes.contains(x),
    ensures
        embedded(t, r),
    decreases r, 1int,
{
    let m = r.children.len() as int;
    let head = NodeView { id: rec_id(r), children: child_ids(r.children), parent };
    assert(rec_nodes(r, parent)[0] == head);
    assert(rec_nodes(r, parent).contains(head));
    assert(t.nodes.contains(head));
    let i = choose|i: int| 0 <= i < t.nodes.len() && t.nodes[i] == head;
    lemma_idx_of_is(t.nodes, head.id, i);
    lemma_rec_nodes_embedded_prefix(t, r, parent, m);
}

/// Each child subtree of an embedded record tree is embedded too.
pub proof fn lemma_rec_nodes_embedded_prefix<V>(
    t: TreeView,
    r: RecordView<V>,
    parent: Option<Seq<char>>,
    j: int,
)
    requires
        crate::model::unique_ids(t.nodes),
        ids_ok(r),
        0 <= j <= r.children.len(),
        forall|x: NodeView| rec_nodes(r, parent).contains(x) ==> #[trigger] t.nodes.contains(x),
    ensures
        embedded_prefix(t, r.children, j),
    decreases r, 0int, j,
{
    if j > 0 {
        lemma_rec_nodes_embedded_prefix(t, r, parent, j - 1);
        let rs = r.children;
        let c = rs[j - 1];
        lemma_ids_ok_prefix_index(rs, rs.len() as int);
        assert(ids_ok(c));
        lemma_rec_nodes_prefix_contains(rs, rec_id(r), j - 1, rs.len() as int);
        assert forall|x: NodeView| rec_nodes(c, Some(rec_id(r))).contains(x) implies
            t.nodes.contains(x) by {
            assert(rec_nodes_prefix(rs, rec_id(r), rs.len() as int).contains(x));
            let k = choose|k: int|
                0 <= k < rec_nodes_prefix(rs, rec_id(r), rs.len() as int).len()
                    && rec_nodes_prefix(rs, rec_id(r), rs.len() as int)[k] == x;
            assert(rec_nodes(r, parent)[1 + k] == x);
            assert(rec_nodes(r, parent).contains(x));
        }
        lemma_rec_nodes_embedded(t, c, Some(rec_id(r)));
    }
}

/// Exporting an embedded record tree's root id, with fuel for its size,
/// reproduces the record tree's id and children structure exactly.
pub proof fn lemma_export_embedded<V>(
    t: TreeView,
    pairs: Seq<(Seq<char>, V)>,
    r: RecordView<V>,
    fuel: nat,
)
    requires
        crate::model::unique_ids(t.nodes),
        embedded(t, r),
        fuel >= rec_ids(r).len(),
    ensures
        same_shape(export_view(t, pairs, rec_id(r), fuel), r),
    decreases r, 1int,
{
    let out = export_view(t, pairs, rec_id(r), fuel);
    let cs = crate::model::node_at(t.nodes, rec_id(r)).children;
    let m = r.children.len() as int;
    assert(cs == child_ids(r.children));
    assert(rec_ids(r).len() == 1 + rec_ids_prefix(r.children, m).len());
    lemma_export_embedded_prefix(t, pairs, r.children, cs, fuel, m);
    assert(out.children.len() == m);
}

/// Exporting each child id of an embedded record, with one hop of fuel
/// spent, reproduces that child's shape.
pub proof fn lemma_export_embedded_prefix<V>(
    t: TreeView,
    pairs: Seq<(Seq<char>, V)>,
    rs: Seq<RecordView<V>>,
    cs: Seq<Seq<char>>,
    fuel: nat,
    j: int,
)
    requires
        crate::model::unique_ids(t.nodes),
        embedded_prefix(t, rs, j),
        0 <= j <= rs.len(),
        cs == child_ids(rs),
        fuel >= rec_ids_prefix(rs, j).len() + 1,
    ensures
        export_children_prefix(t, pairs, cs, fuel, j).len() == j,
        same_shape_prefix(export_children_prefix(t, pairs, cs, fuel, j), rs, j),
    decreases rs, 0int, j,
{
    if j > 0 {
        assert(rec_ids_prefix(rs, j) == rec_ids_prefix(rs, j - 1) + rec_ids(rs[j - 1]));
        assert(rec_ids(rs[j - 1]).len() >= 1);
        lemma_export_embedded_prefix(t, pairs, rs, cs, fuel, j - 1);
        assert(cs[j - 1] == rec_id(rs[j - 1]));
        lemma_export_embedded(t, pairs, rs[j - 1], (fuel - 1) as nat);
        let shorter = export_children_prefix(t, pairs, cs, fuel, j - 1);
        let longer = export_children_prefix(t, pairs, cs, fuel, j);
        assert(longer == shorter.push(export_view(t, pairs, cs[j - 1], (fuel - 1) as nat)));
        lemma_same_shape_prefix_ext(shorter, longer, rs, j - 1);
        assert(longer[j - 1] == export_view(t, pairs, cs[j - 1], (fuel - 1) as nat));
    }
}

/// Whether every record of the tree carries an id, checked recursively.
fn check_ids<V>(r: &Record<V>) -> (b: bool)
    ensures
        b == ids_ok(r@),
    decreases r, 1int,
{
    if r.id.is_none() {
        return false;
    }
    let n = r.children.len();
    proof {
        lemma_rec_views_prefix(r.children@, n as int);
    }
    for j in 0..n
        invariant
            n == r.children@.len(),
            r.id is Some,
            r@.children.len() == n,
            forall|k: int| 0 <= k < n ==> r@.children[k] == rec_view(r.children@[k]),
            ids_ok_prefix(r@.children, j as int),
    {
        let ok = check_ids(&r.children[j]);
        proof {
            assert(r@.children[j as int] == rec_view(r.children@[j as int]));
        }
        if !ok {
            proof {
                if ids_ok(r@) {
                    lemma_ids_ok_prefix_index(r@.children, n as int);
                    assert(ids_ok(r@.children[j as int]));
                }
            }
            return false;
        }
    }
    true
}

/// Appends every id of the record tree to `out`, pre-order.
fn collect_ids<V>(r: &Record<V>, out: &mut Vec<String>)
    requires
        ids_ok(r@),
    ensures
        crate::model::views_of(final(out)@) == crate::model::views_of(old(out)@) + rec_ids(r@),
    decreases r, 1int,
{
    let id: String = match &r.id {
        Some(s) => s.clone(),
        None => vstd::pervasive::unreached(),
    };
    let ghost coll0 = out@;
    out.push(id);
    proof {
        crate::model::lemma_views_of_push(coll0, id);
        lemma_rec_views_prefix(r.children@, r.children@.len() as int);
        lemma_ids_ok_prefix_index(r@.children, r@.children.len() as int);
    }
    let n = r.children.len();
    for j in 0..n
        invariant
            n == r.children@.len(),
            ids_ok(r@),
            r@.children.len() == n,
            forall|k: int| 0 <= k < n ==> r@.children[k] == rec_view(r.children@[k]),
            forall|k: int| 0 <= k < n ==> ids_ok(#[trigger] r@.children[k]),
            crate::model::views_of(out@) == crate::model::views_of(coll0) + seq![rec_id(r@)]
                + rec_ids_prefix(r@.children, j as int),
    {
        proof {
            assert(r@.children[j as int] == rec_view(r.children@[j as int]));
            assert(ids_ok(r@.children[j as int]));
        }
        collect_ids(&r.children[j], out);
        proof {
            assert(crate::model::views_of(out@) =~= crate::model::views_of(coll0) + seq![
                rec_id(r@),
            ] + rec_ids_prefix(r@.children, j + 1));
        }
    }
    proof {
        assert(crate::model::views_of(out@) =~= crate::model::views_of(coll0) + rec_ids(r@));
    }
}

/// Whether any id after the first is the reserved alias, by linear scan.
fn find_reserved(v: &Vec<String>) -> (b: bool)
    ensures
        b == exists|k: int|
            1 <= k < crate::model::views_of(v@).len() && crate::model::views_of(v@)[k] == "root"@,
{
    let root_key: String = "root".to_owned();
    let n = v.len();
    let mut i: usize = 1;
    while i < n
        invariant
            n == v@.len(),
            1 <= i,
            root_key@ == "root"@,
            forall|k: int| 1 <= k < i ==> crate::model::views_of(v@)[k] != "root"@,
        decreases n - i,
    {
        let hit = v[i] == root_key;
        proof {
            assert(crate::model::views_of(v@)[i as int] == v@[i as int]@);
        }
        if hit {
            return true;
        }
        i = i + 1;
    }
    false
}

/// Whether any id occurs twice, by quadratic scan.
fn has_duplicate(v: &Vec<String>) -> (b: bool)
    ensures
        b == !crate::model::views_of(v@).no_duplicates(),
{
    let n = v.len();
    for i in 0..n
        invariant
            n == v@.len(),
            forall|k1: int, k2: int|
                0 <= k1 < k2 < i ==> crate::model::views_of(v@)[k1] != crate::model::views_of(
                    v@,
                )[k2],
    {
        for j in 0..i
            invariant
                n == v@.len(),
                i < n,
                forall|k1: int, k2: int|
                    0 <= k1 < k2 < i ==> crate::model::views_of(v@)[k1] != crate::model::views_of(
                        v@,
                    )[k2],
                forall|k: int|
                    0 <= k < j ==> crate::model::views_of(v@)[k] != crate::model::views_of(
                        v@,
                    )[i as int],
        {
            if v[j] == v[i] {
                proof {
                    assert(crate::model::views_of(v@)[j as int] == crate::model::views_of(
                        v@,
                    )[i as int]);
                }
                return true;
            }
        }
    }
    false
}

/// The views of all records of a sequence, in order.
pub open spec fn views_of_recs<V>(rs: Seq<Record<V>>) -> Seq<RecordView<V>> {
    rec_views_prefix(rs, rs.len() as int)
}

/// The table of `t` with `cids` appended to the child list of the entry
/// carrying `pid`.
pub open spec fn with_children_extended(
    t: crate::model::TreeView,
    pid: Seq<char>,
    cids: Seq<Seq<char>>,
) -> Seq<NodeView> {
    let pidx = crate::model::idx_of(t.nodes, pid);
    let p0 = t.nodes[pidx];
    t.nodes.update(
        pidx,
        NodeView { id: p0.id, children: p0.children + cids, parent: p0.parent },
    )
}

/// Each of the first `j` records is id-complete when the prefix is.
pub proof fn lemma_ids_ok_prefix_index<V>(rs: Seq<RecordView<V>>, m: int)
    requires
        0 <= m <= rs.len(),
        ids_ok_prefix(rs, m),
    ensures
        forall|k: int| 0 <= k < m ==> ids_ok(#[trigger] rs[k]),
    decreases m,
{
    if m > 0 {
        lemma_ids_ok_prefix_index(rs, m - 1);
    }
}

/// A shorter id prefix is literally a take of a longer one.
pub proof fn lemma_rec_ids_prefix_take<V>(rs: Seq<RecordView<V>>, j: int, m: int)
    requires
        0 <= j <= m <= rs.len(),
    ensures
        rec_ids_prefix(rs, j).len() <= rec_ids_prefix(rs, m).len(),
        rec_ids_prefix(rs, j) == rec_ids_prefix(rs, m).take(rec_ids_prefix(rs, j).len() as int),
    decreases m,
{
    if j == m {
        assert(rec_ids_prefix(rs, j) =~= rec_ids_prefix(rs, m).take(
            rec_ids_prefix(rs, j).len() as int,
        ));
    } else {
        lemma_rec_ids_prefix_take(rs, j, m - 1);
        let a = rec_ids_prefix(rs, m - 1);
        let b = rec_ids(rs[m - 1]);
        let l = rec_ids_prefix(rs, j).len() as int;
        assert((a + b).take(l) =~= a.take(l));
    }
}

/// Splitting a duplicate-free concatenation: both halves are duplicate-free
/// and share no element.
pub proof fn lemma_no_dup_concat<A>(a: Seq<A>, b: Seq<A>)
    requires
        (a + b).no_duplicates(),
    ensures
        a.no_duplicates(),
        b.no_duplicates(),
        forall|x: A| a.contains(x) ==> !b.contains(x),
{
    let c = a + b;
    assert forall|k1: int, k2: int| 0 <= k1 < k2 < a.len() implies a[k1] != a[k2] by {
        assert(c[k1] == a[k1] && c[k2] == a[k2]);
    }
    assert forall|k1: int, k2: int| 0 <= k1 < k2 < b.len() implies b[k1] != b[k2] by {
        assert(c[a.len() + k1] == b[k1] && c[a.len() + k2] == b[k2]);
    }
    assert forall|x: A| a.contains(x) implies !b.contains(x) by {
        if b.contains(x) {
            let k1 = choose|k1: int| 0 <= k1 < a.len() && a[k1] == x;
            let k2 = choose|k2: int| 0 <= k2 < b.len() && b[k2] == x;
            assert(c[k1] == x && c[a.len() + k2] == x);
        }
    }
}

/// A take of a duplicate-free sequence is duplicate-free, and everything in
/// it is in the whole.
pub proof fn lemma_take_props<A>(s: Seq<A>, k: int)
    requires
        0 <= k <= s.len(),
    ensures
        s.no_duplicates() ==> s.take(k).no_duplicates(),
        forall|x: A| s.take(k).contains(x) ==> s.contains(x),
{
    assert forall|x: A| s.take(k).contains(x) implies s.contains(x) by {
        let i = choose|i: int| 0 <= i < k && s.take(k)[i] == x;
        assert(s[i] == x);
    }
}

/// The entry ids produced by importing the first `j` subtrees are exactly
/// the pre-order ids of those subtrees.
pub proof fn lemma_rec_nodes_prefix_ids<V>(rs: Seq<RecordView<V>>, pid: Seq<char>, j: int)
    ensures
        crate::model::ids_of(rec_nodes_prefix(rs, pid, j)) == rec_ids_prefix(rs, j),
        rec_nodes_prefix(rs, pid, j).len() == rec_ids_prefix(rs, j).len(),
    decreases rs, j, 0int,
{
    if j <= 0 || j > rs.len() {
        assert(crate::model::ids_of(rec_nodes_prefix(rs, pid, j)) =~= rec_ids_prefix(rs, j));
    } else {
        lemma_rec_nodes_prefix_ids(rs, pid, j - 1);
        lemma_rec_nodes_ids(rs[j - 1], Some(pid));
        assert(crate::model::ids_of(rec_nodes_prefix(rs, pid, j)) =~= rec_ids_prefix(rs, j));
    }
}

/// The entry ids produced by importing a record tree are exactly its
/// pre-order ids.
pub proof fn lemma_rec_nodes_ids<V>(r: RecordView<V>, parent: Option<Seq<char>>)
    ensures
        crate::model::ids_of(rec_nodes(r, parent)) == rec_ids(r),
        rec_nodes(r, parent).len() == rec_ids(r).len(),
        rec_nodes(r, parent).len() >= 1,
        rec_nodes(r, parent)[0] == (NodeView {
            id: rec_id(r),
            children: child_ids(r.children),
            parent,
        }),
        rec_ids(r)[0] == rec_id(r),
    decreases r, 1int,
{
    lemma_rec_nodes_prefix_ids(r.children, rec_id(r), r.children.len() as int);
    assert(crate::model::ids_of(rec_nodes(r, parent)) =~= rec_ids(r));
}

/// An arena has an entry for an id exactly when the id list of its table
/// carries it.
pub proof fn lemma_has_id_contains(nodes: Seq<NodeView>, y: Seq<char>)
    ensures
        crate::model::has_id(nodes, y) <==> crate::model::ids_of(nodes).contains(y),
{
    if crate::model::has_id(nodes, y) {
        let i = choose|i: int| 0 <= i < nodes.len() && nodes[i].id == y;
        assert(crate::model::ids_of(nodes)[i] == y);
    }
    if crate::model::ids_of(nodes).contains(y) {
        let i = choose|i: int|
            0 <= i < crate::model::ids_of(nodes).len() && crate::model::ids_of(nodes)[i] == y;
        assert(nodes[i].id == y);
    }
}

/// Builds a fresh arena from a record tree.
///
/// The input is validated before any node is created: every record must
/// carry an id (`MissingId`), no id below the root may be the reserved
/// alias (`ReservedId`), and no id may occur twice (`DuplicateId`), checked
/// in that order. On success the arena's table holds exactly one entry per
/// record, pre-order, each linked to its parent and children as in the
/// input, with the input's own root as the tree's root; the payload values
/// are handed back as `(id, value)` pairs, pre-order.
pub fn import<V: Copy>(record: &Record<V>) -> (r: Result<(TreeMap, Vec<(String, V)>), TreeError>)
    ensures
        match r {
            Ok(tp) => {
                &&& rec_ok(record@)
                &&& tp.0.wf()
                &&& tp.0@.nodes == rec_nodes(record@, None)
                &&& tp.0@.root_id == rec_id(record@)
                &&& pairs_view(tp.1@) == rec_pairs(record@)
            },
            Err(e) => {
                &&& (e == TreeError::MissingId <==> !ids_ok(record@))
                &&& (e == TreeError::ReservedId <==> ids_ok(record@) && has_reserved(record@))
                &&& (e == TreeError::DuplicateId <==> ids_ok(record@) && !has_reserved(record@)
                    && !rec_ids(record@).no_duplicates())
                &&& (e == TreeError::MissingId || e == TreeError::ReservedId || e
                    == TreeError::DuplicateId)
            },
        },
{
    if !check_ids(record) {
        return Err(TreeError::MissingId);
    }
    let mut ids: Vec<String> = Vec::new();
    collect_ids(record, &mut ids);
    proof {
        assert(views_of(ids@) =~= rec_ids(record@));
    }
    if find_reserved(&ids) {
        return Err(TreeError::ReservedId);
    }
    if has_duplicate(&ids) {
        return Err(TreeError::DuplicateId);
    }
    let rid: String = match &record.id {
        Some(s) => s.clone(),
        None => vstd::pervasive::unreached(),
    };
    let entry = NodeMap { id: rid.clone(), children: Vec::new(), parent: None };
    proof {
        assert(entry@.children =~= Seq::<Seq<char>>::empty());
    }
    let tree0 = TreeMap::new(Some(entry));
    let mut tree = tree0;
    let ghost t0 = tree@;
    let mut pairs: Vec<(String, V)> = Vec::new();
    if let Some(v) = &record.data {
        pairs.push((rid.clone(), *v));
    }
    let ghost pairs0 = pairs@;
    proof {
        let cvs = views_of_recs(record.children@);
        let m = record.children@.len() as int;
        lemma_rec_views_prefix(record.children@, m);
        assert(record@.children == cvs && cvs.len() == m);
        assert(t0.nodes =~~= seq![
            NodeView { id: rid@, children: Seq::empty(), parent: None },
        ]);
        lemma_idx_of_is(t0.nodes, rid@, 0);
        assert(rec_ids(record@) == seq![rec_id(record@)] + rec_ids_prefix(cvs, m));
        lemma_no_dup_concat(seq![rec_id(record@)], rec_ids_prefix(cvs, m));
        assert forall|k: int| 0 <= k < rec_ids_prefix(cvs, m).len() implies !has_id(
            t0.nodes,
            #[trigger] rec_ids_prefix(cvs, m)[k],
        ) && rec_ids_prefix(cvs, m)[k] != "root"@ by {
            let x = rec_ids_prefix(cvs, m)[k];
            assert(rec_ids(record@)[k + 1] == x);
            assert(rec_ids_prefix(cvs, m).contains(x));
            if x == rec_id(record@) {
                assert(seq![rec_id(record@)][0] == x);
                assert(seq![rec_id(record@)].contains(x));
            }
            assert(x != rec_id(record@));
            if x == "root"@ {
                assert(has_reserved(record@));
            }
            if has_id(t0.nodes, x) {
                let i = choose|i: int| 0 <= i < t0.nodes.len() && t0.nodes[i].id == x;
                assert(x == rid@);
            }
        }
    }
    import_children(&mut tree, &mut pairs, &record.children, &rid);
    proof {
        let cvs = views_of_recs(record.children@);
        let m = record.children@.len() as int;
        assert(with_children_extended(t0, rid@, child_ids(cvs)) =~~= seq![
            NodeView { id: rec_id(record@), children: child_ids(cvs), parent: None },
        ]);
        assert(tree@.nodes =~~= rec_nodes(record@, None));
        assert(pairs_view(pairs@) =~= pairs_view(pairs0) + rec_pairs_prefix(cvs, m));
        assert(pairs_view(pairs@) =~= rec_pairs(record@));
    }
    Ok((tree, pairs))
}

/// Links this record's entry under `parent_id`, hands its payload out, and
/// imports its child subtrees below it.
fn import_into<V: Copy>(
    tree: &mut TreeMap,
    pairs: &mut Vec<(String, V)>,
    rec: &Record<V>,
    parent_id: &String,
)
    requires
        old(tree).wf(),
        has_id(old(tree)@.nodes, parent_id@),
        ids_ok(rec@),
        rec_ids(rec@).no_duplicates(),
        forall|k: int|
            0 <= k < rec_ids(rec@).len() ==> !has_id(old(tree)@.nodes, #[trigger] rec_ids(rec@)[k])
                && rec_ids(rec@)[k] != "root"@,
    ensures
        final(tree).wf(),
        final(tree)@.root_id == old(tree)@.root_id,
        final(tree)@.nodes == with_children_extended(old(tree)@, parent_id@, seq![rec_id(rec@)])
            + rec_nodes(rec@, Some(parent_id@)),
        pairs_view(final(pairs)@) == pairs_view(old(pairs)@) + rec_pairs(rec@),
    decreases rec, 1int,
{
    let ghost t0 = tree@;
    let rid: String = match &rec.id {
        Some(s) => s.clone(),
        None => vstd::pervasive::unreached(),
    };
    proof {
        assert(rec_ids(rec@)[0] == rec_id(rec@));
    }
    let entry = NodeMap { id: rid.clone(), children: Vec::new(), parent: None };
    proof {
        assert(entry@.children =~= Seq::<Seq<char>>::empty());
    }
    let res = tree.add_child(entry, Some(parent_id));
    match res {
        Ok(_) => {},
        Err(_) => {
            proof {
                assert(false);
            }
            return;
        },
    }
    let ghost mid = tree@;
    proof {
        assert(mid == add_child_post(t0, rid@, parent_id@));
        crate::model::lemma_node_at(t0.nodes, parent_id@);
        assert(mid.nodes[t0.nodes.len() as int].id == rid@);
        lemma_idx_of_is(mid.nodes, rid@, t0.nodes.len() as int);
        // Every id of the table after the link: the old ones plus `rid`.
        assert(ids_of(mid.nodes) =~= ids_of(t0.nodes).push(rid@));
    }
    let ghost pairs0 = pairs@;
    if let Some(v) = &rec.data {
        pairs.push((rid.clone(), *v));
        proof {
            assert(pairs_view(pairs@) =~= pairs_view(pairs0) + seq![(rec_id(rec@), *v)]);
        }
    }
    proof {
        // The child subtrees' ids: fresh for the extended table, never the
        // reserved alias, and duplicate-free.
        let cvs = views_of_recs(rec.children@);
        let m = rec.children@.len() as int;
        lemma_rec_views_prefix(rec.children@, m);
        assert(rec@.children == cvs);
        assert(cvs.len() == m);
        assert(ids_ok_prefix(cvs, m));
        assert(rec_ids(rec@) == seq![rec_id(rec@)] + rec_ids_prefix(cvs, m));
        lemma_no_dup_concat(seq![rec_id(rec@)], rec_ids_prefix(cvs, m));
        assert forall|k: int| 0 <= k < rec_ids_prefix(cvs, m).len() implies !has_id(
            mid.nodes,
            #[trigger] rec_ids_prefix(cvs, m)[k],
        ) && rec_ids_prefix(cvs, m)[k] != "root"@ by {
            let x = rec_ids_prefix(cvs, m)[k];
            assert(rec_ids(rec@)[k + 1] == x);
            assert(!has_id(t0.nodes, x) && x != "root"@);
            assert(rec_ids_prefix(cvs, m).contains(x));
            assert(x != rec_id(rec@));
            if has_id(mid.nodes, x) {
                lemma_has_id_contains(mid.nodes, x);
                lemma_has_id_contains(t0.nodes, x);
                let i = choose|i: int|
                    0 <= i < ids_of(mid.nodes).len() && ids_of(mid.nodes)[i] == x;
                if i < ids_of(t0.nodes).len() {
                    assert(ids_of(t0.nodes)[i] == x);
                } else {
                    assert(x == rid@);
                }
            }
        }
    }
    import_children(tree, pairs, &rec.children, &rid);
    proof {
        let cvs = views_of_recs(rec.children@);
        let m = rec.children@.len() as int;
        // The entry just linked sits at the end of the old table; filling
        // in its children there commutes with everything after it.
        assert(tree@.nodes == with_children_extended(mid, rid@, child_ids(cvs))
            + rec_nodes_prefix(cvs, rid@, m));
        assert(with_children_extended(mid, rid@, child_ids(cvs)) =~~= with_children_extended(
            t0,
            parent_id@,
            seq![rec_id(rec@)],
        ).push(NodeView { id: rec_id(rec@), children: child_ids(cvs), parent: Some(parent_id@) }));
        assert(tree@.nodes =~= with_children_extended(t0, parent_id@, seq![rec_id(rec@)])
            + rec_nodes(rec@, Some(parent_id@)));
        assert(pairs_view(pairs@) =~= pairs_view(pairs0) + rec_pairs(rec@));
    }
}

/// Imports each record of `rs`, in order, as a new child subtree of the
/// entry carrying `pid`.
fn import_children<V: Copy>(
    tree: &mut TreeMap,
    pairs: &mut Vec<(String, V)>,
    rs: &Vec<Record<V>>,
    pid: &String,
)
    requires
        old(tree).wf(),
        has_id(old(tree)@.nodes, pid@),
        ids_ok_prefix(views_of_recs(rs@), rs@.len() as int),
        rec_ids_prefix(views_of_recs(rs@), rs@.len() as int).no_duplicates(),
        forall|k: int|
            0 <= k < rec_ids_prefix(views_of_recs(rs@), rs@.len() as int).len() ==> !has_id(
                old(tree)@.nodes,
                #[trigger] rec_ids_prefix(views_of_recs(rs@), rs@.len() as int)[k],
            ) && rec_ids_prefix(views_of_recs(rs@), rs@.len() as int)[k] != "root"@,
    ensures
        final(tree).wf(),
        final(tree)@.root_id == old(tree)@.root_id,
        final(tree)@.nodes == with_children_extended(
            old(tree)@,
            pid@,
            child_ids(views_of_recs(rs@)),
        ) + rec_nodes_prefix(views_of_recs(rs@), pid@, rs@.len() as int),
        pairs_view(final(pairs)@) == pairs_view(old(pairs)@) + rec_pairs_prefix(
            views_of_recs(rs@),
            rs@.len() as int,
        ),
    decreases rs, 0int,
{
    let ghost t0 = tree@;
    let ghost rvs = views_of_recs(rs@);
    let ghost pairs0 = pairs@;
    proof {
        lemma_rec_views_prefix(rs@, rs@.len() as int);
        crate::model::lemma_node_at(t0.nodes, pid@);
    }
    let n = rs.len();
    for j in 0..n
        invariant
            n == rs@.len(),
            rvs == views_of_recs(rs@),
            rvs.len() == n,
            forall|k: int| 0 <= k < n ==> rvs[k] == rec_view(rs@[k]),
            t0 == old(tree)@,
            pairs0 == old(pairs)@,
            crate::model::wf(t0),
            has_id(t0.nodes, pid@),
            ids_ok_prefix(rvs, n as int),
            rec_ids_prefix(rvs, n as int).no_duplicates(),
            forall|k: int|
                0 <= k < rec_ids_prefix(rvs, n as int).len() ==> !has_id(
                    t0.nodes,
                    #[trigger] rec_ids_prefix(rvs, n as int)[k],
                ) && rec_ids_prefix(rvs, n as int)[k] != "root"@,
            tree.wf(),
            tree@.root_id == t0.root_id,
            tree@.nodes == with_children_extended(t0, pid@, child_ids(rvs).take(j as int))
                + rec_nodes_prefix(rvs, pid@, j as int),
            pairs_view(pairs@) == pairs_view(pairs0) + rec_pairs_prefix(rvs, j as int),
    {
        let ghost pre = tree@;
        let ghost pidx = idx_of(t0.nodes, pid@);
        proof {
            crate::model::lemma_node_at(t0.nodes, pid@);
            // The parent keeps its place in the working table.
            assert(pre.nodes[pidx].id == pid@);
            lemma_idx_of_is(pre.nodes, pid@, pidx);
            // This subtree is id-complete and duplicate-free.
            lemma_ids_ok_prefix_index(rvs, n as int);
            assert(ids_ok(rvs[j as int]));
            assert(rec_ids_prefix(rvs, j + 1) == rec_ids_prefix(rvs, j as int) + rec_ids(
                rvs[j as int],
            ));
            lemma_rec_ids_prefix_take(rvs, j + 1, n as int);
            lemma_take_props(
                rec_ids_prefix(rvs, n as int),
                rec_ids_prefix(rvs, j + 1).len() as int,
            );
            assert(rec_ids_prefix(rvs, j + 1).no_duplicates());
            lemma_no_dup_concat(rec_ids_prefix(rvs, j as int), rec_ids(rvs[j as int]));
            // Its ids are fresh for the working table.
            lemma_rec_nodes_prefix_ids(rvs, pid@, j as int);
            assert(ids_of(pre.nodes) =~= ids_of(t0.nodes) + rec_ids_prefix(rvs, j as int));
            assert forall|k: int| 0 <= k < rec_ids(rvs[j as int]).len() implies !has_id(
                pre.nodes,
                #[trigger] rec_ids(rvs[j as int])[k],
            ) && rec_ids(rvs[j as int])[k] != "root"@ by {
                let x = rec_ids(rvs[j as int])[k];
                let base = rec_ids_prefix(rvs, j as int).len() as int;
                assert(rec_ids_prefix(rvs, j + 1)[base + k] == x);
                assert(rec_ids_prefix(rvs, n as int).contains(rec_ids_prefix(rvs, j + 1)[base
                    + k]));
                let kk = choose|kk: int|
                    0 <= kk < rec_ids_prefix(rvs, n as int).len() && rec_ids_prefix(
                        rvs,
                        n as int,
                    )[kk] == x;
                assert(!has_id(t0.nodes, x) && x != "root"@);
                assert(rec_ids(rvs[j as int]).contains(x));
                assert(!rec_ids_prefix(rvs, j as int).contains(x));
                if has_id(pre.nodes, x) {
                    lemma_has_id_contains(pre.nodes, x);
                    lemma_has_id_contains(t0.nodes, x);
                    let i = choose|i: int|
                        0 <= i < ids_of(pre.nodes).len() && ids_of(pre.nodes)[i] == x;
                    if i < ids_of(t0.nodes).len() {
                        assert(ids_of(t0.nodes)[i] == x);
                    } else {
                        assert(rec_ids_prefix(rvs, j as int)[i - ids_of(t0.nodes).len()] == x);
                    }
                }
            }
        }
        import_into(tree, pairs, &rs[j], pid);
        proof {
            let cid = rec_id(rvs[j as int]);
            assert(rvs[j as int] == rec_view(rs@[j as int]));
            assert(tree@.nodes == with_children_extended(pre, pid@, seq![cid]) + rec_nodes(
                rvs[j as int],
                Some(pid@),
            ));
            assert(child_ids(rvs).take(j + 1) =~= child_ids(rvs).take(j as int).push(cid));
            assert(pre.nodes == with_children_extended(t0, pid@, child_ids(rvs).take(j as int))
                + rec_nodes_prefix(rvs, pid@, j as int));
            assert(idx_of(pre.nodes, pid@) == pidx);
            assert(0 <= pidx < t0.nodes.len());
            // Extending the parent's child list by one more id, then by the
            // rest, is extending it by the longer prefix.
            assert(with_children_extended(pre, pid@, seq![cid]) =~~= with_children_extended(
                t0,
                pid@,
                child_ids(rvs).take(j + 1),
            ) + rec_nodes_prefix(rvs, pid@, j as int));
            assert(tree@.nodes =~~= with_children_extended(t0, pid@, child_ids(rvs).take(j + 1))
                + rec_nodes_prefix(rvs, pid@, j + 1));
            assert(pairs_view(pairs@) =~= pairs_view(pairs0) + rec_pairs_prefix(rvs, j + 1));
        }
    }
    proof {
        assert(child_ids(rvs).take(n as int) =~= child_ids(rvs));
    }
}

/// The payload stored under `id`, by linear scan: the first match wins.
fn assoc_get<V: Copy>(pairs: &Vec<(String, V)>, id: &String) -> (r: Option<V>)
    ensures
        r == assoc_lookup(pairs_view(pairs@), id@),
{
    let n = pairs.len();
    for i in 0..n
        invariant
            n == pairs@.len(),
            assoc_lookup(pairs_view(pairs@), id@) == lookup_from(
                pairs_view(pairs@),
                i as int,
                id@,
            ),
    {
        let hit = pairs[i].0 == *id;
        proof {
            assert(pairs_view(pairs@)[i as int] == (pairs@[i as int].0@, pairs@[i as int].1));
        }
        if hit {
            return Some(pairs[i].1);
        }
    }
    None
}

/// Exports the subtree below the entry carrying `id`. Recursion terminates
/// on the fuel, of which the depth bound of a well-formed arena always
/// leaves enough.
fn export_node<V: Copy>(tree: &TreeMap, data: &Vec<(String, V)>, id: &String, fuel: usize) -> (out:
    Record<V>)
    requires
        tree.wf(),
        has_id(tree@.nodes, id@),
        fuel >= tree@.nodes.len() - crate::model::depth_of(tree@, id@),
    ensures
        out@ == export_view(tree@, pairs_view(data@), id@, fuel as nat),
    decreases fuel,
{
    let ghost t = tree@;
    let ghost pv = pairs_view(data@);
    let ghost n = t.nodes.len() as nat;
    proof {
        assert(crate::model::wf_node(t, id@));
        crate::model::lemma_steps_bound(t, id@, n);
        assert(crate::model::depth_of(t, id@) < n);
        assert(fuel >= 1);
    }
    let node = tree.entry_by_id(id);
    let ghost cs = crate::model::node_at(t.nodes, id@).children;
    let m = node.children.len();
    let mut kids: Vec<Record<V>> = Vec::new();
    for j in 0..m
        invariant
            t == tree@,
            pv == pairs_view(data@),
            n == t.nodes.len(),
            crate::model::wf(t),
            has_id(t.nodes, id@),
            fuel >= t.nodes.len() - crate::model::depth_of(t, id@),
            fuel >= 1,
            node@ == crate::model::node_at(t.nodes, id@),
            cs == node@.children,
            m == node.children@.len(),
            kids@.len() == j,
            views_of_recs(kids@) == export_children_prefix(t, pv, cs, fuel as nat, j as int),
    {
        let cid = node.children[j].clone();
        proof {
            assert(cs[j as int] == cid@);
            assert(has_id(t.nodes, cid@));
            assert(crate::model::node_at(t.nodes, cid@).parent == Some(id@));
            crate::model::lemma_child_depth(t, id@, cid@);
        }
        let ghost kids0 = kids@;
        let kid = export_node(tree, data, &cid, fuel - 1);
        kids.push(kid);
        proof {
            lemma_rec_views_prefix(kids0, kids0.len() as int);
            lemma_rec_views_prefix(kids@, kids@.len() as int);
            assert(views_of_recs(kids@) =~= views_of_recs(kids0).push(kid@));
            assert(views_of_recs(kids@) =~= export_children_prefix(t, pv, cs, fuel as nat, j + 1));
        }
    }
    let out = Record { id: Some(id.clone()), data: assoc_get(data, id), children: kids };
    proof {
        assert(out@.children == views_of_recs(out.children@));
        assert(out@ =~~= export_view(t, pv, id@, fuel as nat));
    }
    out
}

/// Exports the whole arena from its root, rebuilding the record shape and
/// attaching to each node whatever the payload store holds for its id.
pub fn export<V: Copy>(tree: &TreeMap, data: &Vec<(String, V)>) -> (out: Record<V>)
    requires
        tree.wf(),
    ensures
        out@ == export_view(
            tree@,
            pairs_view(data@),
            tree@.root_id,
            tree@.nodes.len() as nat,
        ),
{
    let root = tree.get_root();
    let rid = root.id.clone();
    proof {
        assert(crate::model::node_at(tree@.nodes, tree@.root_id).parent is None);
        assert(crate::model::depth_of(tree@, tree@.root_id) == 0);
    }
    let fuel = tree.len();
    export_node(tree, data, &rid, fuel)
}

} // verus!
