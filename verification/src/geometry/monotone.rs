use std::collections::HashMap;
use vstd::prelude::*;
use crate::geometry::segment_tree::{
    SegmentBinTree, TreeError, removed_from, tree_ids, lemma_inserted_contents, lemma_removed_from_ids,
    lemma_nearest_left_in_ids, lemma_remove_from_keeps_order, lemma_insert_fresh_leaf,
};
use crate::geometry::polygon_selector::{pred, segments_within};

verus! {

broadcast use vstd::std_specs::hash::group_hash_axioms;

/// The diagonals recorded so far at vertex `v`, in the order they were
/// recorded.
pub open spec fn list_at(d: Map<usize, Seq<usize>>, v: usize) -> Seq<usize> {
    if d.contains_key(v) { d[v] } else { Seq::empty() }
}

/// The lists of a table of diagonals, by vertex.
pub open spec fn lists_of(m: Map<usize, Vec<usize>>) -> Map<usize, Seq<usize>> {
    Map::new(|v: usize| m.contains_key(v), |v: usize| m[v]@)
}

/// The table with the diagonal `a`–`b` recorded: `b` at the end of the list
/// of `a`, then `a` at the end of the list of `b`.
pub open spec fn joined(d: Map<usize, Seq<usize>>, a: usize, b: usize) -> Map<usize, Seq<usize>> {
    let d1 = d.insert(a, list_at(d, a).push(b));
    d1.insert(b, list_at(d1, b).push(a))
}

/// Each end of every recorded diagonal lists the other end.
pub open spec fn symmetric(d: Map<usize, Seq<usize>>) -> bool {
    forall|a: usize, b: usize| #[trigger] list_at(d, a).contains(b) ==> #[trigger] list_at(d, b).contains(a)
}

/// Every vertex of the table, and every vertex it lists, is one of the `n`
/// vertices of the polygon.
pub open spec fn lists_within(d: Map<usize, Seq<usize>>, n: usize) -> bool {
    &&& forall|v: usize| #[trigger] d.contains_key(v) ==> v < n
    &&& forall|v: usize, i: int| 0 <= i < list_at(d, v).len() ==> #[trigger] list_at(d, v)[i] < n
}

/// Records the diagonal between `a` and `b` among the extra segments: `b`
/// joins the list of `a`, then `a` joins the list of `b`.
pub fn connect(extra_segments: &mut HashMap<usize, Vec<usize>>, a: usize, b: usize)
    ensures
        lists_of(final(extra_segments)@) == joined(lists_of(old(extra_segments)@), a, b),
{
    let ghost d0 = lists_of(extra_segments@);
    extra_segments.entry(a).or_insert(Vec::new()).push(b);
    let ghost m1 = extra_segments@;
    let ghost d1 = d0.insert(a, list_at(d0, a).push(b));
    assert(lists_of(m1) =~= d1);
    extra_segments.entry(b).or_insert(Vec::new()).push(a);
    assert(lists_of(extra_segments@) =~= d1.insert(b, list_at(d1, b).push(a)));
}

/// Recording a diagonal keeps the table symmetric.
pub proof fn lemma_joined_keeps_symmetry(d: Map<usize, Seq<usize>>, a: usize, b: usize)
    requires
        symmetric(d),
    ensures
        symmetric(joined(d, a, b)),
{
    let d1 = d.insert(a, list_at(d, a).push(b));
    let d2 = joined(d, a, b);
    assert forall|v: usize| #[trigger] list_at(d2, v) == list_at(d, v)
        + (if v == a { seq![b] } else { Seq::<usize>::empty() })
        + (if v == b { seq![a] } else { Seq::<usize>::empty() }) by {
        assert(list_at(d, v) + Seq::<usize>::empty() =~= list_at(d, v));
        assert(list_at(d1, v) + Seq::<usize>::empty() =~= list_at(d1, v));
        if v == a {
            assert(list_at(d, v).push(b) =~= list_at(d, v) + seq![b]);
        }
        if v == b {
            assert(list_at(d1, v).push(a) =~= list_at(d1, v) + seq![a]);
        }
    }
    assert forall|x: usize, y: usize| #[trigger] list_at(d2, x).contains(y) implies #[trigger] list_at(d2, y).contains(x) by {
        let lx = list_at(d2, x);
        let ly = list_at(d2, y);
        let bx = list_at(d, x);
        let by_ = list_at(d, y);
        let k = choose|k: int| 0 <= k < lx.len() && lx[k] == y;
        if k < bx.len() {
            assert(bx[k] == y);
            assert(bx.contains(y));
            assert(by_.contains(x));
            let j = choose|j: int| 0 <= j < by_.len() && by_[j] == x;
            assert(ly[j] == x);
        } else if x == a && k == bx.len() {
            assert(y == b);
            let pos = by_.len() + (if y == a { 1int } else { 0 });
            assert(ly[pos] == a);
        } else {
            assert(x == b && y == a);
            assert(ly[by_.len() as int] == b);
        }
    }
}

/// Recording a diagonal between two vertices of the polygon keeps the table
/// within the polygon.
proof fn lemma_joined_within(d: Map<usize, Seq<usize>>, a: usize, b: usize, n: usize)
    requires
        lists_within(d, n),
        a < n,
        b < n,
    ensures
        lists_within(joined(d, a, b), n),
{
    let d1 = d.insert(a, list_at(d, a).push(b));
    let d2 = joined(d, a, b);
    assert forall|v: usize, i: int| 0 <= i < list_at(d1, v).len() implies #[trigger] list_at(d1, v)[i] < n by {
        if v != a {
            assert(list_at(d1, v) == list_at(d, v));
        } else if i < list_at(d, v).len() {
            assert(list_at(d1, v)[i] == list_at(d, v)[i]);
        }
    }
    assert forall|v: usize, i: int| 0 <= i < list_at(d2, v).len() implies #[trigger] list_at(d2, v)[i] < n by {
        if v != b {
            assert(list_at(d2, v) == list_at(d1, v));
        } else if i < list_at(d1, v).len() {
            assert(list_at(d2, v)[i] == list_at(d1, v)[i]);
        }
    }
}

/// The role of a vertex in the sweep from the top of the polygon down.
#[derive(Debug, Clone, Copy, PartialEq, Eq, Structural)]
pub enum VertexKind {
    /// Both neighbours below, interior angle under a half turn.
    Start,
    /// Both neighbours above, interior angle under a half turn.
    End,
    /// Both neighbours below, reflex.
    Split,
    /// Both neighbours above, reflex.
    Merge,
    /// On the left chain of the polygon.
    RegularLeft,
    /// On the right chain of the polygon.
    RegularRight,
}

impl VertexKind {
    /// The kind of a vertex from the facts the sweep tests about it.
    pub open spec fn classified(both_above: bool, both_below: bool, convex: bool, left_chain: bool) -> VertexKind {
        if both_above {
            if convex { VertexKind::End } else { VertexKind::Merge }
        } else if both_below {
            if convex { VertexKind::Start } else { VertexKind::Split }
        } else if left_chain {
            VertexKind::RegularLeft
        } else {
            VertexKind::RegularRight
        }
    }

    /// Classifies a vertex: `both_above` / `both_below` whether both
    /// neighbours lie above / below it, `convex` whether the interior angle
    /// is under a half turn, `left_chain` whether it lies on the left chain.
    pub fn classify(both_above: bool, both_below: bool, convex: bool, left_chain: bool) -> (k: VertexKind)
        ensures
            k == VertexKind::classified(both_above, both_below, convex, left_chain),
    {
        if both_above {
            if convex { VertexKind::End } else { VertexKind::Merge }
        } else if both_below {
            if convex { VertexKind::Start } else { VertexKind::Split }
        } else if left_chain {
            VertexKind::RegularLeft
        } else {
            VertexKind::RegularRight
        }
    }
}

/// Why the sweep that cuts a polygon into monotone pieces stopped.
#[derive(Debug, Clone, Copy, PartialEq, Eq, Structural)]
pub enum SweepError {
    /// A vertex needed the edge tree before any edge was entered.
    NoTree,
    /// An operation on the edge tree failed.
    Tree(TreeError),
}

/// The state of the sweep: the helper of each edge (its vertex, and
/// whether that vertex is a merge vertex), the tree of the edges the sweep
/// line crosses, and the diagonals recorded so far.
pub type SweepState = (Seq<(usize, bool)>, Option<SegmentBinTree>, Map<usize, Seq<usize>>);

/// The table with `i` joined to the helper of edge `j` when that helper is
/// a merge vertex.
pub open spec fn join_merge_helper(d: Map<usize, Seq<usize>>, helpers: Seq<(usize, bool)>, i: usize, j: usize) -> Map<usize, Seq<usize>> {
    if helpers[j as int].1 { joined(d, i, helpers[j as int].0) } else { d }
}

/// The tree with the edge `id`, entered by the key `x`, taken out, or the
/// error (no tree at all, or what the tree refused).
pub open spec fn tree_removed(tree: Option<SegmentBinTree>, id: usize, x: i64) -> Result<Option<SegmentBinTree>, SweepError> {
    match tree {
        None => Err(SweepError::NoTree),
        Some(t) => match removed_from(Some(t), id, x).1 {
            Ok(_) => Ok(removed_from(Some(t), id, x).0),
            Err(e) => Err(SweepError::Tree(e)),
        },
    }
}

/// The tree with the edge `id` entered by the key `x` (a tree of that one
/// edge when there was none), or the error.
pub open spec fn tree_added(tree: Option<SegmentBinTree>, id: usize, x: i64) -> Result<Option<SegmentBinTree>, SweepError> {
    match tree {
        None => Ok(Some(SegmentBinTree::leaf(id, x))),
        Some(t) => match t.try_inserted(SegmentBinTree::leaf(id, x)).1 {
            Ok(_) => Ok(Some(t.try_inserted(SegmentBinTree::leaf(id, x)).0)),
            Err(e) => Err(SweepError::Tree(e)),
        },
    }
}

/// The edge that `nearest_left` finds, or the error.
pub open spec fn tree_nearest(tree: Option<SegmentBinTree>, row: Seq<bool>) -> Result<usize, SweepError> {
    match tree {
        None => Err(SweepError::NoTree),
        Some(t) => match t.nearest_left_of(row) {
            Some(k) => Ok(k),
            None => Err(SweepError::Tree(TreeError::NoSegmentOnLeft)),
        },
    }
}

/// One step of the sweep, at vertex `i` of a counter-clockwise polygon of
/// `n` vertices.  The edge `i` runs from vertex `i` to the next one and
/// enters and leaves the tree by its order key `keys[i]` (of two edges that
/// cross a common horizontal line, the one on the left has the smaller
/// key).  `left_of[i][e]` tells whether edge `e` passes to the left of
/// vertex `i`.
/// - start: edge `i` enters the tree, with `i` as its helper;
/// - end: joined to the helper of the edge before it when that helper is a
///   merge vertex; that edge leaves;
/// - split: joined to the helper of the edge on its left, which it becomes
///   the helper of; edge `i` enters with `i` as its helper;
/// - merge: as an end, then joined to the helper of the edge on its left
///   when that helper is a merge vertex, and that edge's helper becomes `i`
///   as a merge vertex;
/// - left chain (interior on its right): as an end, then edge `i` enters
///   with `i` as its helper;
/// - right chain: joined to the helper of the edge on its left when that
///   helper is a merge vertex, and that edge's helper becomes `i`.
pub open spec fn sweep_step(
    n: usize,
    kinds: Seq<VertexKind>,
    keys: Seq<i64>,
    left_of: Seq<Vec<bool>>,
    st: SweepState,
    i: usize,
) -> Result<SweepState, SweepError> {
    let helpers = st.0;
    let tree = st.1;
    let d = st.2;
    let prev = pred(n, i);
    let key_prev = keys[prev as int];
    let key = keys[i as int];
    let row = left_of[i as int]@;
    match kinds[i as int] {
        VertexKind::End => match tree_removed(tree, prev, key_prev) {
            Err(e) => Err(e),
            Ok(t2) => Ok((helpers, t2, join_merge_helper(d, helpers, i, prev))),
        },
        VertexKind::Merge => match tree_removed(tree, prev, key_prev) {
            Err(e) => Err(e),
            Ok(t2) => match tree_nearest(t2, row) {
                Err(e) => Err(e),
                Ok(k) => Ok((
                    helpers.update(k as int, (i, true)),
                    t2,
                    join_merge_helper(join_merge_helper(d, helpers, i, prev), helpers, i, k),
                )),
            },
        },
        VertexKind::Start => match tree_added(tree, i, key) {
            Err(e) => Err(e),
            Ok(t2) => Ok((helpers.update(i as int, (i, false)), t2, d)),
        },
        VertexKind::Split => match tree_nearest(tree, row) {
            Err(e) => Err(e),
            Ok(k) => match tree_added(tree, i, key) {
                Err(e) => Err(e),
                Ok(t2) => Ok((
                    helpers.update(k as int, (i, false)).update(i as int, (i, false)),
                    t2,
                    joined(d, i, helpers[k as int].0),
                )),
            },
        },
        VertexKind::RegularLeft => match tree_removed(tree, prev, key_prev) {
            Err(e) => Err(e),
            Ok(t2) => match tree_added(t2, i, key) {
                Err(e) => Err(e),
                Ok(t3) => Ok((helpers.update(i as int, (i, false)), t3, join_merge_helper(d, helpers, i, prev))),
            },
        },
        VertexKind::RegularRight => match tree_nearest(tree, row) {
            Err(e) => Err(e),
            Ok(k) => Ok((helpers.update(k as int, (i, false)), tree, join_merge_helper(d, helpers, i, k))),
        },
    }
}

/// The sweep over the vertices of `order`, from the state `st`.
pub open spec fn sweep_from(
    n: usize,
    kinds: Seq<VertexKind>,
    keys: Seq<i64>,
    left_of: Seq<Vec<bool>>,
    st: SweepState,
    order: Seq<usize>,
) -> Result<SweepState, SweepError>
    decreases order.len(),
{
    if order.len() == 0 {
        Ok(st)
    } else {
        match sweep_step(n, kinds, keys, left_of, st, order[0]) {
            Err(e) => Err(e),
            Ok(st2) => sweep_from(n, kinds, keys, left_of, st2, order.drop_first()),
        }
    }
}

/// The state the sweep starts from: every helper is vertex 0 and not a
/// merge vertex, no tree, no diagonal.
pub open spec fn sweep_start(n: usize) -> SweepState {
    (Seq::new(n as nat, |j: int| (0usize, false)), None, Map::empty())
}

/// The diagonals that cut the polygon into pieces monotone in y, or the
/// error that stopped the sweep (see [`to_monotonic_addings`]).
pub open spec fn monotone_diagonals(
    kinds: Seq<VertexKind>,
    keys: Seq<i64>,
    left_of: Seq<Vec<bool>>,
    order: Seq<usize>,
) -> Result<Map<usize, Seq<usize>>, SweepError> {
    match sweep_from(kinds.len() as usize, kinds, keys, left_of, sweep_start(kinds.len() as usize), order) {
        Ok(st) => Ok(st.2),
        Err(e) => Err(e),
    }
}

/// Every edge in the tree is one of the `n` edges of the polygon.
pub open spec fn edges_within(tree: Option<SegmentBinTree>, n: usize) -> bool {
    tree matches Some(t) ==> forall|id: usize| #[trigger] t.ids().contains(id) ==> id < n
}

/// What the sweep keeps true of its state.
pub open spec fn sweep_inv(n: usize, st: SweepState) -> bool {
    &&& st.0.len() == n
    &&& forall|j: int| 0 <= j < n ==> #[trigger] st.0[j].0 < n
    &&& edges_within(st.1, n)
    &&& lists_within(st.2, n)
    &&& symmetric(st.2)
}

/// The tree operations of the sweep keep the tree within the polygon, and
/// the edge found on the left is one of its edges.
proof fn lemma_tree_ops_within(n: usize, tree: Option<SegmentBinTree>, id: usize, x: i64, row: Seq<bool>)
    requires
        edges_within(tree, n),
        id < n,
    ensures
        tree_removed(tree, id, x) matches Ok(t2) ==> edges_within(t2, n),
        tree_added(tree, id, x) matches Ok(t2) ==> edges_within(t2, n),
        tree_nearest(tree, row) matches Ok(k) ==> k < n,
{
    lemma_removed_from_ids(tree, id, x);
    match tree {
        None => {
            assert(SegmentBinTree::leaf(id, x).ids() =~= set![id]);
        },
        Some(t) => {
            let lf = SegmentBinTree::leaf(id, x);
            assert(lf.ids() =~= set![id]);
            lemma_inserted_contents(t, lf);
            lemma_nearest_left_in_ids(t, row);
            match removed_from(tree, id, x).0 {
                None => {},
                Some(r) => {
                    assert(tree_ids(Some(r)) == r.ids());
                    assert(tree_ids(tree) == t.ids());
                },
            }
        },
    }
}

/// A step of the sweep keeps its invariant.
proof fn lemma_step_keeps_inv(
    n: usize,
    kinds: Seq<VertexKind>,
    keys: Seq<i64>,
    left_of: Seq<Vec<bool>>,
    st: SweepState,
    i: usize,
)
    requires
        sweep_inv(n, st),
        i < n,
    ensures
        sweep_step(n, kinds, keys, left_of, st, i) matches Ok(s2) ==> sweep_inv(n, s2),
{
    let helpers = st.0;
    let d = st.2;
    let prev = pred(n, i);
    let key_prev = keys[prev as int];
    let key = keys[i as int];
    let row = left_of[i as int]@;
    assert(prev < n);
    lemma_tree_ops_within(n, st.1, prev, key_prev, row);
    lemma_tree_ops_within(n, st.1, i, key, row);
    match tree_removed(st.1, prev, key_prev) {
        Ok(t2) => {
            lemma_tree_ops_within(n, t2, i, key, row);
        },
        Err(_) => {},
    }
    assert(helpers[prev as int].0 < n);
    lemma_joined_keeps_symmetry(d, i, helpers[prev as int].0);
    lemma_joined_within(d, i, helpers[prev as int].0, n);
    let d1 = join_merge_helper(d, helpers, i, prev);
    match sweep_step(n, kinds, keys, left_of, st, i) {
        Err(_) => {},
        Ok(s2) => {
            match kinds[i as int] {
                VertexKind::Merge => {
                    let t2 = tree_removed(st.1, prev, key_prev).unwrap();
                    let k = tree_nearest(t2, row).unwrap();
                    assert(k < n);
                    assert(helpers[k as int].0 < n);
                    lemma_joined_keeps_symmetry(d1, i, helpers[k as int].0);
                    lemma_joined_within(d1, i, helpers[k as int].0, n);
                },
                VertexKind::Split => {
                    let k = tree_nearest(st.1, row).unwrap();
                    assert(k < n);
                    assert(helpers[k as int].0 < n);
                    lemma_joined_keeps_symmetry(d, i, helpers[k as int].0);
                    lemma_joined_within(d, i, helpers[k as int].0, n);
                },
                VertexKind::RegularRight => {
                    let k = tree_nearest(st.1, row).unwrap();
                    assert(k < n);
                    assert(helpers[k as int].0 < n);
                    lemma_joined_keeps_symmetry(d, i, helpers[k as int].0);
                    lemma_joined_within(d, i, helpers[k as int].0, n);
                },
                _ => {},
            }
        },
    }
}

/// Every diagonal listed in `d1` but not in `d0` has `i` as one end.
pub open spec fn only_at(d0: Map<usize, Seq<usize>>, d1: Map<usize, Seq<usize>>, i: usize) -> bool {
    forall|x: usize, y: usize| #[trigger] list_at(d1, x).contains(y) && !list_at(d0, x).contains(y) ==> x == i || y == i
}

/// Recording the diagonal `i`–`h` lists nothing new but that diagonal.
proof fn lemma_joined_only_at(d: Map<usize, Seq<usize>>, i: usize, h: usize)
    ensures
        only_at(d, joined(d, i, h), i),
{
    let d1 = d.insert(i, list_at(d, i).push(h));
    let d2 = joined(d, i, h);
    assert forall|x: usize, y: usize| #[trigger] list_at(d2, x).contains(y) && !list_at(d, x).contains(y)
        implies x == i || y == i by {
        let l = list_at(d2, x);
        let k = choose|k: int| 0 <= k < l.len() && l[k] == y;
        if x != i {
            assert(list_at(d1, x) == list_at(d, x));
            if x != h {
                assert(l == list_at(d, x));
                assert(list_at(d, x)[k] == y);
            } else {
                assert(l == list_at(d, x).push(i));
                if k < list_at(d, x).len() {
                    assert(list_at(d, x)[k] == y);
                }
            }
        }
    }
}

/// Each step of the sweep lists only new diagonals that have the vertex it
/// meets as one end, and a start vertex lists none.
pub proof fn lemma_step_diagonals_at_vertex(
    n: usize,
    kinds: Seq<VertexKind>,
    keys: Seq<i64>,
    left_of: Seq<Vec<bool>>,
    st: SweepState,
    i: usize,
)
    ensures
        sweep_step(n, kinds, keys, left_of, st, i) matches Ok(s2) ==> {
            &&& only_at(st.2, s2.2, i)
            &&& kinds[i as int] == VertexKind::Start ==> s2.2 == st.2
        },
{
    let helpers = st.0;
    let d = st.2;
    let prev = pred(n, i);
    let d1 = join_merge_helper(d, helpers, i, prev);
    lemma_joined_only_at(d, i, helpers[prev as int].0);
    match sweep_step(n, kinds, keys, left_of, st, i) {
        Err(_) => {},
        Ok(s2) => {
            match kinds[i as int] {
                VertexKind::Merge => {
                    let k = tree_nearest(tree_removed(st.1, prev, keys[prev as int]).unwrap(), left_of[i as int]@).unwrap();
                    lemma_joined_only_at(d1, i, helpers[k as int].0);
                    assert(only_at(d, s2.2, i)) by {
                        assert forall|x: usize, y: usize| #[trigger] list_at(s2.2, x).contains(y) && !list_at(d, x).contains(y)
                            implies x == i || y == i by {
                            if !list_at(d1, x).contains(y) {
                                assert(only_at(d1, s2.2, i));
                            }
                        }
                    }
                },
                VertexKind::Split => {
                    let k = tree_nearest(st.1, left_of[i as int]@).unwrap();
                    lemma_joined_only_at(d, i, helpers[k as int].0);
                },
                VertexKind::RegularRight => {
                    let k = tree_nearest(st.1, left_of[i as int]@).unwrap();
                    lemma_joined_only_at(d, i, helpers[k as int].0);
                },
                _ => {},
            }
        },
    }
}

/// The tree holds no edge of `ids`, and is ordered with each edge once.
pub open spec fn tree_fresh(tree: Option<SegmentBinTree>, ids: Set<usize>) -> bool {
    tree matches Some(t) ==> t.wf() && t.ids().disjoint(ids)
}

/// The tree operations of a step at vertex `i` keep the tree ordered with
/// each edge once, and bring in no edge but `i`.
proof fn lemma_tree_ops_fresh(tree: Option<SegmentBinTree>, rest: Set<usize>, i: usize, prev: usize, key: i64, key_prev: i64)
    requires
        tree_fresh(tree, rest.insert(i)),
        !rest.contains(i),
    ensures
        tree_removed(tree, prev, key_prev) matches Ok(t2) ==> tree_fresh(t2, rest.insert(i)),
        tree_added(tree, i, key) matches Ok(t2) ==> tree_fresh(t2, rest),
{
    lemma_removed_from_ids(tree, prev, key_prev);
    lemma_remove_from_keeps_order(tree, prev, key_prev);
    match removed_from(tree, prev, key_prev).0 {
        None => {},
        Some(r) => {
            assert(tree_ids(Some(r)) == r.ids());
        },
    }
    match tree {
        None => {
            assert(SegmentBinTree::leaf(i, key).ids() =~= set![i]);
            assert(SegmentBinTree::leaf(i, key).wf());
        },
        Some(t) => {
            assert(tree_ids(tree) == t.ids());
            assert(!t.ids().contains(i));
            lemma_insert_fresh_leaf(t, i, key);
        },
    }
}

/// The sweep keeps its tree of edges ordered, each edge in it once, when it
/// meets every vertex at most once: from a tree that holds no edge of the
/// vertices still to come, it ends with an ordered tree again.
pub proof fn lemma_sweep_keeps_tree_ordered(
    n: usize,
    kinds: Seq<VertexKind>,
    keys: Seq<i64>,
    left_of: Seq<Vec<bool>>,
    st: SweepState,
    order: Seq<usize>,
)
    requires
        order.no_duplicates(),
        tree_fresh(st.1, order.to_set()),
    ensures
        sweep_from(n, kinds, keys, left_of, st, order) matches Ok(s2) ==> tree_fresh(s2.1, Set::empty()),
    decreases order.len(),
{
    if order.len() == 0 {
        if let Some(t) = st.1 {
            assert(t.ids().disjoint(Set::empty()));
        }
        return;
    }
    let i = order[0];
    let rest = order.drop_first();
    assert(rest.no_duplicates());
    assert(rest.to_set().insert(i) =~= order.to_set()) by {
        assert forall|x: usize| order.to_set().contains(x) implies rest.to_set().insert(i).contains(x) by {
            let k = choose|k: int| 0 <= k < order.len() && order[k] == x;
            if k > 0 {
                assert(rest[k - 1] == x);
            }
        }
        assert forall|x: usize| rest.to_set().contains(x) implies order.to_set().contains(x) by {
            let k = choose|k: int| 0 <= k < rest.len() && rest[k] == x;
            assert(order[k + 1] == x);
        }
    }
    let prev = pred(n, i);
    assert(!rest.to_set().contains(i)) by {
        if rest.to_set().contains(i) {
            let k = choose|k: int| 0 <= k < rest.len() && rest[k] == i;
            assert(order[k + 1] == order[0]);
        }
    }
    lemma_tree_ops_fresh(st.1, rest.to_set(), i, prev, keys[i as int], keys[prev as int]);
    match tree_removed(st.1, prev, keys[prev as int]) {
        Ok(t2) => {
            lemma_tree_ops_fresh(t2, rest.to_set(), i, prev, keys[i as int], keys[prev as int]);
        },
        Err(_) => {},
    }
    match sweep_step(n, kinds, keys, left_of, st, i) {
        Err(_) => {},
        Ok(s2) => {
            assert(tree_fresh(s2.1, rest.to_set())) by {
                if let Some(t) = s2.1 {
                    assert(t.ids().disjoint(rest.to_set().insert(i)) ==> t.ids().disjoint(rest.to_set()));
                }
            }
            lemma_sweep_keeps_tree_ordered(n, kinds, keys, left_of, s2, rest);
        },
    }
}

/// Both ends of the diagonal `a`–`b` list each other.
pub open spec fn joined_pair(d: Map<usize, Seq<usize>>, a: usize, b: usize) -> bool {
    list_at(d, a).contains(b) && list_at(d, b).contains(a)
}

/// Every diagonal listed in `d0` is still listed in `d1`.
pub open spec fn keeps(d0: Map<usize, Seq<usize>>, d1: Map<usize, Seq<usize>>) -> bool {
    forall|x: usize, y: usize| #[trigger] list_at(d0, x).contains(y) ==> list_at(d1, x).contains(y)
}

/// Recording `a`–`b` lists it at both ends and drops nothing.
proof fn lemma_joined_pair_kept(d: Map<usize, Seq<usize>>, a: usize, b: usize)
    ensures
        joined_pair(joined(d, a, b), a, b),
        keeps(d, joined(d, a, b)),
{
    let d1 = d.insert(a, list_at(d, a).push(b));
    let d2 = joined(d, a, b);
    assert(list_at(d1, a) == list_at(d, a).push(b));
    assert(list_at(d2, b) == list_at(d1, b).push(a));
    assert(list_at(d2, b)[list_at(d1, b).len() as int] == a);
    assert(list_at(d1, a)[list_at(d, a).len() as int] == b);
    assert forall|x: usize, y: usize| #[trigger] list_at(d1, x).contains(y) implies list_at(d2, x).contains(y) by {
        let k = choose|k: int| 0 <= k < list_at(d1, x).len() && list_at(d1, x)[k] == y;
        if x == b {
            assert(list_at(d2, x)[k] == y);
        } else {
            assert(list_at(d2, x) == list_at(d1, x));
        }
    }
    assert forall|x: usize, y: usize| #[trigger] list_at(d, x).contains(y) implies list_at(d2, x).contains(y) by {
        let k = choose|k: int| 0 <= k < list_at(d, x).len() && list_at(d, x)[k] == y;
        if x == a {
            assert(list_at(d1, x)[k] == y);
        } else {
            assert(list_at(d1, x) == list_at(d, x));
        }
        assert(list_at(d1, x).contains(y));
    }
    assert(list_at(d2, a).contains(b)) by {
        assert(list_at(d1, a).contains(b));
    }
}

/// Joining to a helper only when it is a merge vertex drops nothing, and
/// records the pair when it is one.
proof fn lemma_merge_helper_kept(d: Map<usize, Seq<usize>>, helpers: Seq<(usize, bool)>, i: usize, j: usize)
    ensures
        keeps(d, join_merge_helper(d, helpers, i, j)),
        helpers[j as int].1 ==> joined_pair(join_merge_helper(d, helpers, i, j), i, helpers[j as int].0),
{
    lemma_joined_pair_kept(d, i, helpers[j as int].0);
}

/// A step of the sweep drops no diagonal, and resolves the merge vertices
/// it meets: at an end, merge or left-chain vertex whose incoming edge has
/// a merge vertex as helper, that helper and the vertex are joined; at a
/// merge or right-chain vertex, so is the helper of the edge on its left
/// when it is a merge vertex; and a split vertex is always joined to the
/// helper of the edge on its left.
pub proof fn lemma_step_joins_helpers(
    n: usize,
    kinds: Seq<VertexKind>,
    keys: Seq<i64>,
    left_of: Seq<Vec<bool>>,
    st: SweepState,
    i: usize,
)
    ensures
        ({
            let r = sweep_step(n, kinds, keys, left_of, st, i);
            let s2 = r->Ok_0;
            let prev = pred(n, i);
            let row = left_of[i as int]@;
            let km = tree_nearest(tree_removed(st.1, prev, keys[prev as int])->Ok_0, row)->Ok_0;
            let kr = tree_nearest(st.1, row)->Ok_0;
            &&& r is Ok ==> keeps(st.2, s2.2)
            &&& (r is Ok && (kinds[i as int] == VertexKind::End || kinds[i as int] == VertexKind::Merge
                || kinds[i as int] == VertexKind::RegularLeft) && st.0[prev as int].1)
                ==> joined_pair(s2.2, i, st.0[prev as int].0)
            &&& (r is Ok && kinds[i as int] == VertexKind::Merge && st.0[km as int].1)
                ==> joined_pair(s2.2, i, st.0[km as int].0)
            &&& (r is Ok && (kinds[i as int] == VertexKind::RegularRight || kinds[i as int] == VertexKind::Split)
                && (st.0[kr as int].1 || kinds[i as int] == VertexKind::Split))
                ==> joined_pair(s2.2, i, st.0[kr as int].0)
        }),
{
    let helpers = st.0;
    let d = st.2;
    let prev = pred(n, i);
    let d1 = join_merge_helper(d, helpers, i, prev);
    lemma_merge_helper_kept(d, helpers, i, prev);
    match sweep_step(n, kinds, keys, left_of, st, i) {
        Err(_) => {},
        Ok(s2) => {
            match kinds[i as int] {
                VertexKind::Merge => {
                    let t2 = tree_removed(st.1, prev, keys[prev as int]).unwrap();
                    let k = tree_nearest(t2, left_of[i as int]@).unwrap();
                    lemma_merge_helper_kept(d1, helpers, i, k);
                    let d2 = join_merge_helper(d1, helpers, i, k);
                    assert(s2.2 == d2);
                    assert(keeps(d, d2)) by {
                        assert forall|x: usize, y: usize| #[trigger] list_at(d, x).contains(y) implies list_at(d2, x).contains(y) by {
                            assert(list_at(d1, x).contains(y));
                        }
                    }
                    if helpers[prev as int].1 {
                        assert(list_at(d1, i).contains(helpers[prev as int].0));
                        assert(list_at(d1, helpers[prev as int].0).contains(i));
                    }
                },
                VertexKind::Split => {
                    let k = tree_nearest(st.1, left_of[i as int]@).unwrap();
                    lemma_joined_pair_kept(d, i, helpers[k as int].0);
                },
                VertexKind::RegularRight => {
                    let k = tree_nearest(st.1, left_of[i as int]@).unwrap();
                    lemma_merge_helper_kept(d, helpers, i, k);
                },
                VertexKind::Start => {
                    assert(keeps(d, d));
                },
                _ => {},
            }
        },
    }
}

/// A diagonal newly listed after recording `a`–`b` is that diagonal.
proof fn lemma_joined_new(d: Map<usize, Seq<usize>>, a: usize, b: usize)
    ensures
        forall|x: usize, y: usize| #[trigger] list_at(joined(d, a, b), x).contains(y) && !list_at(d, x).contains(y)
            ==> (x == a && y == b) || (x == b && y == a),
{
    let d1 = d.insert(a, list_at(d, a).push(b));
    let d2 = joined(d, a, b);
    assert forall|x: usize, y: usize| #[trigger] list_at(d2, x).contains(y) && !list_at(d, x).contains(y)
        implies (x == a && y == b) || (x == b && y == a) by {
        let l = list_at(d2, x);
        let k = choose|k: int| 0 <= k < l.len() && l[k] == y;
        if x == b {
            assert(l == list_at(d1, x).push(a));
            if k < list_at(d1, x).len() {
                assert(list_at(d1, x)[k] == y);
                if x == a {
                    assert(list_at(d1, x) == list_at(d, x).push(b));
                    if k < list_at(d, x).len() {
                        assert(list_at(d, x)[k] == y);
                    }
                } else {
                    assert(list_at(d1, x) == list_at(d, x));
                    assert(list_at(d, x)[k] == y);
                }
            }
        } else if x == a {
            assert(l == list_at(d, x).push(b));
            if k < list_at(d, x).len() {
                assert(list_at(d, x)[k] == y);
            }
        } else {
            assert(l == list_at(d, x));
            assert(list_at(d, x)[k] == y);
        }
    }
}

/// The vertices the step at vertex `i` is to join `i` to: the helper of the
/// edge before `i` when it is a merge vertex and `i` is an end, merge or
/// left-chain vertex; the helper of the edge on the left of `i` when it is
/// a merge vertex and `i` is a merge or right-chain vertex; and that helper
/// whatever it is when `i` is a split vertex.
pub open spec fn step_partner(
    n: usize,
    kinds: Seq<VertexKind>,
    keys: Seq<i64>,
    left_of: Seq<Vec<bool>>,
    st: SweepState,
    i: usize,
    h: usize,
) -> bool {
    let prev = pred(n, i);
    let row = left_of[i as int]@;
    let km = tree_nearest(tree_removed(st.1, prev, keys[prev as int])->Ok_0, row)->Ok_0;
    let kr = tree_nearest(st.1, row)->Ok_0;
    let k = kinds[i as int];
    ||| ((k == VertexKind::End || k == VertexKind::Merge || k == VertexKind::RegularLeft)
        && st.0[prev as int].1 && h == st.0[prev as int].0)
    ||| (k == VertexKind::Merge && st.0[km as int].1 && h == st.0[km as int].0)
    ||| (k == VertexKind::RegularRight && st.0[kr as int].1 && h == st.0[kr as int].0)
    ||| (k == VertexKind::Split && h == st.0[kr as int].0)
}

/// A step of the sweep at vertex `i` records no diagonal but those from `i`
/// to the vertices it is to join it to (see [`step_partner`]).
pub proof fn lemma_step_joins_only_helpers(
    n: usize,
    kinds: Seq<VertexKind>,
    keys: Seq<i64>,
    left_of: Seq<Vec<bool>>,
    st: SweepState,
    i: usize,
)
    ensures
        sweep_step(n, kinds, keys, left_of, st, i) is Ok ==> forall|x: usize, y: usize|
            #[trigger] list_at(sweep_step(n, kinds, keys, left_of, st, i)->Ok_0.2, x).contains(y)
            && !list_at(st.2, x).contains(y)
            ==> (x == i && step_partner(n, kinds, keys, left_of, st, i, y))
                || (y == i && step_partner(n, kinds, keys, left_of, st, i, x)),
{
    let helpers = st.0;
    let d = st.2;
    let prev = pred(n, i);
    let row = left_of[i as int]@;
    let km = tree_nearest(tree_removed(st.1, prev, keys[prev as int])->Ok_0, row)->Ok_0;
    let kr = tree_nearest(st.1, row)->Ok_0;
    let d1 = join_merge_helper(d, helpers, i, prev);
    lemma_joined_new(d, i, helpers[prev as int].0);
    lemma_joined_new(d, i, helpers[kr as int].0);
    lemma_joined_new(d1, i, helpers[km as int].0);
    match sweep_step(n, kinds, keys, left_of, st, i) {
        Err(_) => {},
        Ok(s2) => {
            let p = |h: usize| step_partner(n, kinds, keys, left_of, st, i, h);
            assert forall|x: usize, y: usize| #[trigger] list_at(s2.2, x).contains(y) && !list_at(d, x).contains(y)
                implies (x == i && p(y)) || (y == i && p(x)) by {
                match kinds[i as int] {
                    VertexKind::Merge => {
                        if list_at(d1, x).contains(y) {
                            assert(helpers[prev as int].1);
                        } else {
                            assert(helpers[km as int].1);
                        }
                    },
                    VertexKind::Start => {},
                    _ => {},
                }
            }
        },
    }
}

/// The sweep drops no diagonal it has recorded.
pub proof fn lemma_sweep_keeps_diagonals(
    n: usize,
    kinds: Seq<VertexKind>,
    keys: Seq<i64>,
    left_of: Seq<Vec<bool>>,
    st: SweepState,
    order: Seq<usize>,
)
    ensures
        sweep_from(n, kinds, keys, left_of, st, order) matches Ok(s2) ==> keeps(st.2, s2.2),
    decreases order.len(),
{
    if order.len() == 0 {
        assert(keeps(st.2, st.2));
    } else {
        lemma_step_joins_helpers(n, kinds, keys, left_of, st, order[0]);
        match sweep_step(n, kinds, keys, left_of, st, order[0]) {
            Err(_) => {},
            Ok(s1) => {
                lemma_sweep_keeps_diagonals(n, kinds, keys, left_of, s1, order.drop_first());
                match sweep_from(n, kinds, keys, left_of, s1, order.drop_first()) {
                    Err(_) => {},
                    Ok(s2) => {
                        assert forall|x: usize, y: usize| #[trigger] list_at(st.2, x).contains(y) implies list_at(s2.2, x).contains(y) by {
                            assert(list_at(s1.2, x).contains(y));
                        }
                    },
                }
            },
        }
    }
}

/// The sweep over `order` is the sweep over its first `j` vertices, then
/// over the rest.
pub proof fn lemma_sweep_from_take(
    n: usize,
    kinds: Seq<VertexKind>,
    keys: Seq<i64>,
    left_of: Seq<Vec<bool>>,
    st: SweepState,
    order: Seq<usize>,
    j: int,
)
    requires
        0 <= j <= order.len(),
    ensures
        sweep_from(n, kinds, keys, left_of, st, order) == match sweep_from(n, kinds, keys, left_of, st, order.take(j)) {
            Ok(s) => sweep_from(n, kinds, keys, left_of, s, order.skip(j)),
            Err(e) => Err(e),
        },
    decreases j,
{
    if j == 0 {
        assert(order.take(0) =~= Seq::<usize>::empty());
        assert(order.skip(0) =~= order);
    } else {
        let rest = order.drop_first();
        assert(order.take(j)[0] == order[0]);
        assert(order.take(j).drop_first() =~= rest.take(j - 1));
        assert(rest.skip(j - 1) =~= order.skip(j));
        match sweep_step(n, kinds, keys, left_of, st, order[0]) {
            Err(_) => {},
            Ok(s1) => {
                lemma_sweep_from_take(n, kinds, keys, left_of, s1, rest, j - 1);
            },
        }
    }
}

/// The state of the sweep before it meets the vertex at position `j` of
/// `order`.
pub open spec fn state_before(
    kinds: Seq<VertexKind>,
    keys: Seq<i64>,
    left_of: Seq<Vec<bool>>,
    order: Seq<usize>,
    j: int,
) -> Result<SweepState, SweepError> {
    sweep_from(kinds.len() as usize, kinds, keys, left_of, sweep_start(kinds.len() as usize), order.take(j))
}

/// No merge vertex is left unresolved by the edge it helps: when the sweep
/// meets an end, merge or left-chain vertex whose incoming edge has a merge
/// vertex as helper, the diagonals the sweep gives join that vertex and
/// that helper.
pub proof fn lemma_sweep_joins_merge_helpers(
    kinds: Seq<VertexKind>,
    keys: Seq<i64>,
    left_of: Seq<Vec<bool>>,
    order: Seq<usize>,
    j: int,
)
    requires
        0 <= j < order.len(),
    ensures
        ({
            let n = kinds.len() as usize;
            let i = order[j];
            let before = state_before(kinds, keys, left_of, order, j);
            let d = monotone_diagonals(kinds, keys, left_of, order);
            let h = before->Ok_0.0[pred(n, i) as int];
            (before is Ok && d is Ok && (kinds[i as int] == VertexKind::End || kinds[i as int] == VertexKind::Merge
                || kinds[i as int] == VertexKind::RegularLeft) && h.1)
                ==> joined_pair(d->Ok_0, i, h.0)
        }),
{
    let n = kinds.len() as usize;
    let i = order[j];
    lemma_sweep_from_take(n, kinds, keys, left_of, sweep_start(n), order, j);
    match state_before(kinds, keys, left_of, order, j) {
        Err(_) => {},
        Ok(st) => {
            let tail = order.skip(j);
            assert(tail[0] == i);
            lemma_step_joins_helpers(n, kinds, keys, left_of, st, i);
            match sweep_step(n, kinds, keys, left_of, st, i) {
                Err(_) => {},
                Ok(s1) => {
                    lemma_sweep_keeps_diagonals(n, kinds, keys, left_of, s1, tail.drop_first());
                    match sweep_from(n, kinds, keys, left_of, s1, tail.drop_first()) {
                        Err(_) => {},
                        Ok(s2) => {
                            let h = st.0[pred(n, i) as int].0;
                            if (kinds[i as int] == VertexKind::End || kinds[i as int] == VertexKind::Merge
                                || kinds[i as int] == VertexKind::RegularLeft) && st.0[pred(n, i) as int].1 {
                                assert(list_at(s1.2, i).contains(h));
                                assert(list_at(s1.2, h).contains(i));
                                assert(list_at(s2.2, i).contains(h));
                                assert(list_at(s2.2, h).contains(i));
                            }
                        },
                    }
                },
            }
        },
    }
}

/// Every vertex the sweep is to join to the vertex it meets (see
/// [`step_partner`]) is joined to it in the diagonals the sweep gives.
pub proof fn lemma_sweep_joins_partners(
    kinds: Seq<VertexKind>,
    keys: Seq<i64>,
    left_of: Seq<Vec<bool>>,
    order: Seq<usize>,
    j: int,
    h: usize,
)
    requires
        0 <= j < order.len(),
    ensures
        ({
            let n = kinds.len() as usize;
            let before = state_before(kinds, keys, left_of, order, j);
            let d = monotone_diagonals(kinds, keys, left_of, order);
            (before is Ok && d is Ok && step_partner(n, kinds, keys, left_of, before->Ok_0, order[j], h))
                ==> joined_pair(d->Ok_0, order[j], h)
        }),
{
    let n = kinds.len() as usize;
    let i = order[j];
    lemma_sweep_from_take(n, kinds, keys, left_of, sweep_start(n), order, j);
    match state_before(kinds, keys, left_of, order, j) {
        Err(_) => {},
        Ok(st) => {
            let tail = order.skip(j);
            assert(tail[0] == i);
            lemma_step_joins_helpers(n, kinds, keys, left_of, st, i);
            match sweep_step(n, kinds, keys, left_of, st, i) {
                Err(_) => {},
                Ok(s1) => {
                    lemma_sweep_keeps_diagonals(n, kinds, keys, left_of, s1, tail.drop_first());
                    match sweep_from(n, kinds, keys, left_of, s1, tail.drop_first()) {
                        Err(_) => {},
                        Ok(s2) => {
                            if step_partner(n, kinds, keys, left_of, st, i, h) {
                                assert(list_at(s1.2, i).contains(h));
                                assert(list_at(s1.2, h).contains(i));
                                assert(list_at(s2.2, i).contains(h));
                                assert(list_at(s2.2, h).contains(i));
                            }
                        },
                    }
                },
            }
        },
    }
}

/// The sweep keeps its invariant over any sequence of vertices.
proof fn lemma_sweep_keeps_inv(
    n: usize,
    kinds: Seq<VertexKind>,
    keys: Seq<i64>,
    left_of: Seq<Vec<bool>>,
    st: SweepState,
    order: Seq<usize>,
)
    requires
        sweep_inv(n, st),
        forall|j: int| 0 <= j < order.len() ==> #[trigger] order[j] < n,
    ensures
        sweep_from(n, kinds, keys, left_of, st, order) matches Ok(s2) ==> sweep_inv(n, s2),
    decreases order.len(),
{
    if order.len() > 0 {
        lemma_step_keeps_inv(n, kinds, keys, left_of, st, order[0]);
        match sweep_step(n, kinds, keys, left_of, st, order[0]) {
            Err(_) => {},
            Ok(s2) => {
                assert forall|j: int| 0 <= j < order.drop_first().len() implies #[trigger] order.drop_first()[j] < n by {
                    assert(order.drop_first()[j] == order[j + 1]);
                }
                lemma_sweep_keeps_inv(n, kinds, keys, left_of, s2, order.drop_first());
            },
        }
    }
}

/// The diagonals the sweep records join vertices of the polygon, and each
/// is recorded at both of its ends.
pub proof fn lemma_monotone_diagonals_symmetric(
    kinds: Seq<VertexKind>,
    keys: Seq<i64>,
    left_of: Seq<Vec<bool>>,
    order: Seq<usize>,
)
    requires
        kinds.len() <= usize::MAX,
        forall|j: int| 0 <= j < order.len() ==> #[trigger] order[j] < kinds.len(),
    ensures
        monotone_diagonals(kinds, keys, left_of, order) matches Ok(d) ==> {
            &&& symmetric(d)
            &&& lists_within(d, kinds.len() as usize)
        },
{
    let n = kinds.len() as usize;
    assert(sweep_inv(n, sweep_start(n)));
    lemma_sweep_keeps_inv(n, kinds, keys, left_of, sweep_start(n), order);
}

/// Whether `res` and the state `st1` left behind are what one step of the
/// sweep at vertex `i` gives from `st0` (see [`sweep_step`]).
spec fn step_done(
    kinds: Seq<VertexKind>,
    keys: Seq<i64>,
    left_of: Seq<Vec<bool>>,
    st0: SweepState,
    i: usize,
    res: Result<(), SweepError>,
    st1: SweepState,
) -> bool {
    match res {
        Ok(_) => sweep_step(kinds.len() as usize, kinds, keys, left_of, st0, i) == Ok::<SweepState, SweepError>(st1),
        Err(e) => sweep_step(kinds.len() as usize, kinds, keys, left_of, st0, i) == Err::<SweepState, SweepError>(e),
    }
}

/// Takes the edge `id`, entered by the key `x`, out of the tree.
fn tree_remove(tree: &mut Option<SegmentBinTree>, id: usize, x: i64) -> (res: Result<(), SweepError>)
    ensures
        match res {
            Ok(_) => tree_removed(*old(tree), id, x) == Ok::<Option<SegmentBinTree>, SweepError>(*final(tree)),
            Err(e) => tree_removed(*old(tree), id, x) == Err::<Option<SegmentBinTree>, SweepError>(e),
        },
{
    if tree.is_none() {
        return Err(SweepError::NoTree);
    }
    match SegmentBinTree::remove_from(tree, id, x) {
        Ok(()) => Ok(()),
        Err(e) => Err(SweepError::Tree(e)),
    }
}

/// Enters the edge `id` by the key `x`; a tree of that edge alone when
/// there is none.
fn tree_add(tree: &mut Option<SegmentBinTree>, id: usize, x: i64) -> (res: Result<(), SweepError>)
    ensures
        match res {
            Ok(_) => tree_added(*old(tree), id, x) == Ok::<Option<SegmentBinTree>, SweepError>(*final(tree)),
            Err(e) => tree_added(*old(tree), id, x) == Err::<Option<SegmentBinTree>, SweepError>(e),
        },
{
    match tree {
        None => {
            *tree = Some(SegmentBinTree::new(id, x));
            Ok(())
        },
        Some(t) => match t.insert(SegmentBinTree::new(id, x)) {
            Ok(()) => Ok(()),
            Err(e) => Err(SweepError::Tree(e)),
        },
    }
}

/// The edge of the tree nearest to the left of a vertex; `row[e]` tells
/// whether edge `e` passes to its left.
fn tree_left_of(tree: &Option<SegmentBinTree>, row: &Vec<bool>) -> (res: Result<usize, SweepError>)
    requires
        edges_within(*tree, row.len()),
    ensures
        res == tree_nearest(*tree, row@),
{
    match tree {
        None => Err(SweepError::NoTree),
        Some(t) => match t.nearest_left(row) {
            Ok(k) => Ok(k),
            Err(e) => Err(SweepError::Tree(e)),
        },
    }
}

/// The sweep at an end vertex.
fn sweep_end(
    helpers: &mut Vec<(usize, bool)>,
    tree: &mut Option<SegmentBinTree>,
    diag: &mut HashMap<usize, Vec<usize>>,
    i: usize,
    kinds: &Vec<VertexKind>,
    keys: &Vec<i64>,
    left_of: &Vec<Vec<bool>>,
) -> (res: Result<(), SweepError>)
    requires
        keys.len() == kinds.len(),
        left_of.len() == kinds.len(),
        forall|j: int| 0 <= j < left_of.len() ==> #[trigger] left_of[j].len() == kinds.len(),
        i < kinds.len(),
        sweep_inv(kinds.len() as usize, (old(helpers)@, *old(tree), lists_of(old(diag)@))),
        kinds@[i as int] == VertexKind::End,
    ensures
        step_done(kinds@, keys@, left_of@, (old(helpers)@, *old(tree), lists_of(old(diag)@)), i, res,
            (final(helpers)@, *final(tree), lists_of(final(diag)@))),
{
    let n = kinds.len();
    let prev = if i == 0 { n - 1 } else { i - 1 };
    let hp = helpers[prev];
    if hp.1 {
        connect(diag, i, hp.0);
    }
    tree_remove(tree, prev, keys[prev])
}

/// The sweep at a merge vertex.
fn sweep_merge(
    helpers: &mut Vec<(usize, bool)>,
    tree: &mut Option<SegmentBinTree>,
    diag: &mut HashMap<usize, Vec<usize>>,
    i: usize,
    kinds: &Vec<VertexKind>,
    keys: &Vec<i64>,
    left_of: &Vec<Vec<bool>>,
) -> (res: Result<(), SweepError>)
    requires
        keys.len() == kinds.len(),
        left_of.len() == kinds.len(),
        forall|j: int| 0 <= j < left_of.len() ==> #[trigger] left_of[j].len() == kinds.len(),
        i < kinds.len(),
        sweep_inv(kinds.len() as usize, (old(helpers)@, *old(tree), lists_of(old(diag)@))),
        kinds@[i as int] == VertexKind::Merge,
    ensures
        step_done(kinds@, keys@, left_of@, (old(helpers)@, *old(tree), lists_of(old(diag)@)), i, res,
            (final(helpers)@, *final(tree), lists_of(final(diag)@))),
{
    let n = kinds.len();
    let prev = if i == 0 { n - 1 } else { i - 1 };
    let hp = helpers[prev];
    if hp.1 {
        connect(diag, i, hp.0);
    }
    match tree_remove(tree, prev, keys[prev]) {
        Ok(()) => {},
        Err(e) => { return Err(e); },
    }
    proof {
        lemma_tree_ops_within(n, *old(tree), prev, keys@[prev as int], left_of@[i as int]@);
    }
    let k = match tree_left_of(tree, &left_of[i]) {
        Ok(k) => k,
        Err(e) => { return Err(e); },
    };
    proof {
        lemma_tree_ops_within(n, *tree, i, keys@[i as int], left_of@[i as int]@);
    }
    let hk = helpers[k];
    if hk.1 {
        connect(diag, i, hk.0);
    }
    helpers.set(k, (i, true));
    Ok(())
}

/// The sweep at a start vertex.
fn sweep_start_vertex(
    helpers: &mut Vec<(usize, bool)>,
    tree: &mut Option<SegmentBinTree>,
    diag: &mut HashMap<usize, Vec<usize>>,
    i: usize,
    kinds: &Vec<VertexKind>,
    keys: &Vec<i64>,
    left_of: &Vec<Vec<bool>>,
) -> (res: Result<(), SweepError>)
    requires
        keys.len() == kinds.len(),
        left_of.len() == kinds.len(),
        forall|j: int| 0 <= j < left_of.len() ==> #[trigger] left_of[j].len() == kinds.len(),
        i < kinds.len(),
        sweep_inv(kinds.len() as usize, (old(helpers)@, *old(tree), lists_of(old(diag)@))),
        kinds@[i as int] == VertexKind::Start,
    ensures
        step_done(kinds@, keys@, left_of@, (old(helpers)@, *old(tree), lists_of(old(diag)@)), i, res,
            (final(helpers)@, *final(tree), lists_of(final(diag)@))),
{
    match tree_add(tree, i, keys[i]) {
        Ok(()) => {},
        Err(e) => { return Err(e); },
    }
    helpers.set(i, (i, false));
    Ok(())
}

/// The sweep at a split vertex.
fn sweep_split(
    helpers: &mut Vec<(usize, bool)>,
    tree: &mut Option<SegmentBinTree>,
    diag: &mut HashMap<usize, Vec<usize>>,
    i: usize,
    kinds: &Vec<VertexKind>,
    keys: &Vec<i64>,
    left_of: &Vec<Vec<bool>>,
) -> (res: Result<(), SweepError>)
    requires
        keys.len() == kinds.len(),
        left_of.len() == kinds.len(),
        forall|j: int| 0 <= j < left_of.len() ==> #[trigger] left_of[j].len() == kinds.len(),
        i < kinds.len(),
        sweep_inv(kinds.len() as usize, (old(helpers)@, *old(tree), lists_of(old(diag)@))),
        kinds@[i as int] == VertexKind::Split,
    ensures
        step_done(kinds@, keys@, left_of@, (old(helpers)@, *old(tree), lists_of(old(diag)@)), i, res,
            (final(helpers)@, *final(tree), lists_of(final(diag)@))),
{
    let n = kinds.len();
    let k = match tree_left_of(tree, &left_of[i]) {
        Ok(k) => k,
        Err(e) => { return Err(e); },
    };
    proof {
        lemma_tree_ops_within(n, *tree, i, keys@[i as int], left_of@[i as int]@);
    }
    match tree_add(tree, i, keys[i]) {
        Ok(()) => {},
        Err(e) => { return Err(e); },
    }
    let hk = helpers[k];
    connect(diag, i, hk.0);
    helpers.set(k, (i, false));
    helpers.set(i, (i, false));
    Ok(())
}

/// The sweep at a vertex of the left chain.
fn sweep_left(
    helpers: &mut Vec<(usize, bool)>,
    tree: &mut Option<SegmentBinTree>,
    diag: &mut HashMap<usize, Vec<usize>>,
    i: usize,
    kinds: &Vec<VertexKind>,
    keys: &Vec<i64>,
    left_of: &Vec<Vec<bool>>,
) -> (res: Result<(), SweepError>)
    requires
        keys.len() == kinds.len(),
        left_of.len() == kinds.len(),
        forall|j: int| 0 <= j < left_of.len() ==> #[trigger] left_of[j].len() == kinds.len(),
        i < kinds.len(),
        sweep_inv(kinds.len() as usize, (old(helpers)@, *old(tree), lists_of(old(diag)@))),
        kinds@[i as int] == VertexKind::RegularLeft,
    ensures
        step_done(kinds@, keys@, left_of@, (old(helpers)@, *old(tree), lists_of(old(diag)@)), i, res,
            (final(helpers)@, *final(tree), lists_of(final(diag)@))),
{
    let n = kinds.len();
    let prev = if i == 0 { n - 1 } else { i - 1 };
    let hp = helpers[prev];
    if hp.1 {
        connect(diag, i, hp.0);
    }
    match tree_remove(tree, prev, keys[prev]) {
        Ok(()) => {},
        Err(e) => { return Err(e); },
    }
    match tree_add(tree, i, keys[i]) {
        Ok(()) => {},
        Err(e) => { return Err(e); },
    }
    helpers.set(i, (i, false));
    Ok(())
}

/// The sweep at a vertex of the right chain.
fn sweep_right(
    helpers: &mut Vec<(usize, bool)>,
    tree: &mut Option<SegmentBinTree>,
    diag: &mut HashMap<usize, Vec<usize>>,
    i: usize,
    kinds: &Vec<VertexKind>,
    keys: &Vec<i64>,
    left_of: &Vec<Vec<bool>>,
) -> (res: Result<(), SweepError>)
    requires
        keys.len() == kinds.len(),
        left_of.len() == kinds.len(),
        forall|j: int| 0 <= j < left_of.len() ==> #[trigger] left_of[j].len() == kinds.len(),
        i < kinds.len(),
        sweep_inv(kinds.len() as usize, (old(helpers)@, *old(tree), lists_of(old(diag)@))),
        kinds@[i as int] == VertexKind::RegularRight,
    ensures
        step_done(kinds@, keys@, left_of@, (old(helpers)@, *old(tree), lists_of(old(diag)@)), i, res,
            (final(helpers)@, *final(tree), lists_of(final(diag)@))),
{
    let n = kinds.len();
    let k = match tree_left_of(tree, &left_of[i]) {
        Ok(k) => k,
        Err(e) => { return Err(e); },
    };
    proof {
        lemma_tree_ops_within(n, *tree, i, keys@[i as int], left_of@[i as int]@);
    }
    let hk = helpers[k];
    if hk.1 {
        connect(diag, i, hk.0);
    }
    helpers.set(k, (i, false));
    Ok(())
}

/// One step of the sweep, at vertex `i` (see [`sweep_step`]).
fn sweep_vertex(
    helpers: &mut Vec<(usize, bool)>,
    tree: &mut Option<SegmentBinTree>,
    diag: &mut HashMap<usize, Vec<usize>>,
    i: usize,
    kinds: &Vec<VertexKind>,
    keys: &Vec<i64>,
    left_of: &Vec<Vec<bool>>,
) -> (res: Result<(), SweepError>)
    requires
        keys.len() == kinds.len(),
        left_of.len() == kinds.len(),
        forall|j: int| 0 <= j < left_of.len() ==> #[trigger] left_of[j].len() == kinds.len(),
        i < kinds.len(),
        sweep_inv(kinds.len() as usize, (old(helpers)@, *old(tree), lists_of(old(diag)@))),
    ensures
        step_done(kinds@, keys@, left_of@, (old(helpers)@, *old(tree), lists_of(old(diag)@)), i, res,
            (final(helpers)@, *final(tree), lists_of(final(diag)@))),
{
    match kinds[i] {
        VertexKind::End => sweep_end(helpers, tree, diag, i, kinds, keys, left_of),
        VertexKind::Merge => sweep_merge(helpers, tree, diag, i, kinds, keys, left_of),
        VertexKind::Start => sweep_start_vertex(helpers, tree, diag, i, kinds, keys, left_of),
        VertexKind::Split => sweep_split(helpers, tree, diag, i, kinds, keys, left_of),
        VertexKind::RegularLeft => sweep_left(helpers, tree, diag, i, kinds, keys, left_of),
        VertexKind::RegularRight => sweep_right(helpers, tree, diag, i, kinds, keys, left_of),
    }
}

/// Sweeps the polygon from the top down and records the diagonals that cut
/// it into pieces monotone in y.  `order` holds the vertices in the order
/// the sweep meets them; `kinds` and `left_of` are what the geometry says
/// of each vertex, `keys` of each edge (see [`sweep_step`]).  The diagonals come
/// as lists by vertex, each recorded at both of its ends.
pub fn to_monotonic_addings(
    order: &Vec<usize>,
    kinds: &Vec<VertexKind>,
    keys: &Vec<i64>,
    left_of: &Vec<Vec<bool>>,
) -> (res: Result<HashMap<usize, Vec<usize>>, SweepError>)
    requires
        keys.len() == kinds.len(),
        left_of.len() == kinds.len(),
        forall|j: int| 0 <= j < left_of.len() ==> #[trigger] left_of[j].len() == kinds.len(),
        forall|j: int| 0 <= j < order.len() ==> #[trigger] order[j] < kinds.len(),
    ensures
        match res {
            Ok(m) => monotone_diagonals(kinds@, keys@, left_of@, order@)
                == Ok::<Map<usize, Seq<usize>>, SweepError>(lists_of(m@)),
            Err(e) => monotone_diagonals(kinds@, keys@, left_of@, order@)
                == Err::<Map<usize, Seq<usize>>, SweepError>(e),
        },
        res matches Ok(m) ==> {
            &&& symmetric(lists_of(m@))
            &&& lists_within(lists_of(m@), kinds.len())
            &&& segments_within(m@, kinds.len())
        },
{
    let n = kinds.len();
    let mut helpers: Vec<(usize, bool)> = Vec::new();
    let mut j: usize = 0;
    while j < n
        invariant
            j <= n,
            helpers@ == Seq::new(j as nat, |x: int| (0usize, false)),
        decreases n - j,
    {
        helpers.push((0, false));
        j += 1;
        assert(helpers@ =~= Seq::new(j as nat, |x: int| (0usize, false)));
    }
    let mut tree: Option<SegmentBinTree> = None;
    let mut diag: HashMap<usize, Vec<usize>> = HashMap::new();
    let ghost start = sweep_start(n);
    assert(lists_of(diag@) =~= Map::<usize, Seq<usize>>::empty());
    assert((helpers@, tree, lists_of(diag@)) == start);
    let mut j: usize = 0;
    assert(order@.skip(0) =~= order@);
    while j < order.len()
        invariant
            n == kinds.len(),
            keys.len() == kinds.len(),
            left_of.len() == kinds.len(),
            forall|x: int| 0 <= x < left_of.len() ==> #[trigger] left_of[x].len() == kinds.len(),
            forall|x: int| 0 <= x < order.len() ==> #[trigger] order[x] < kinds.len(),
            j <= order.len(),
            start == sweep_start(n),
            sweep_inv(n, (helpers@, tree, lists_of(diag@))),
            sweep_from(n, kinds@, keys@, left_of@, start, order@)
                == sweep_from(n, kinds@, keys@, left_of@, (helpers@, tree, lists_of(diag@)), order@.skip(j as int)),
        decreases order.len() - j,
    {
        let i = order[j];
        let ghost st0 = (helpers@, tree, lists_of(diag@));
        proof {
            lemma_step_keeps_inv(n, kinds@, keys@, left_of@, st0, i);
            assert(order@.skip(j as int)[0] == i);
            assert(order@.skip(j as int).drop_first() =~= order@.skip(j + 1));
        }
        match sweep_vertex(&mut helpers, &mut tree, &mut diag, i, kinds, keys, left_of) {
            Ok(()) => {},
            Err(e) => {
                assert(sweep_step(n, kinds@, keys@, left_of@, st0, i) == Err::<SweepState, SweepError>(e));
                assert(sweep_from(n, kinds@, keys@, left_of@, st0, order@.skip(j as int)) == Err::<SweepState, SweepError>(e));
                return Err(e);
            },
        }
        j += 1;
    }
    proof {
        assert(order@.skip(j as int) =~= Seq::<usize>::empty());
        lemma_lists_within_segments(diag@, n);
    }
    Ok(diag)
}

/// A table within the polygon, read back as extra segments, only leads to
/// vertices of the polygon.
proof fn lemma_lists_within_segments(m: Map<usize, Vec<usize>>, n: usize)
    requires
        lists_within(lists_of(m), n),
    ensures
        segments_within(m, n),
{
    assert forall|v: usize, i: int| m.contains_key(v) && 0 <= i < m[v]@.len() implies #[trigger] m[v]@[i] < n by {
        assert(list_at(lists_of(m), v) == m[v]@);
        assert(list_at(lists_of(m), v)[i] < n);
    }
}

} // verus!
