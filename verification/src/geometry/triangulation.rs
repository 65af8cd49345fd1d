use std::collections::HashMap;
use vstd::prelude::*;
use vstd::std_specs::hash::spec_hash_map_iter;
use vstd::std_specs::iter::IteratorSpec;
use crate::geometry::polygon_selector::{
    PolygonSelector, select_outcome, segments_within, lemma_select_walks_closed_path, lemma_select_closed,
    closed_walk, SelectError,
};
use crate::geometry::monotone::{
    VertexKind, to_monotonic_addings, monotone_diagonals, lists_of, lists_within, list_at,
    lemma_monotone_diagonals_symmetric,
};
use crate::geometry::mesh::indices_below;

verus! {

broadcast use vstd::std_specs::hash::group_hash_axioms;

/// The pairs `(v, w)` for each vertex `v` of `keys` in turn and each entry
/// `w` of its list, in the list's order.
pub open spec fn starts_in(diag: Map<usize, Vec<usize>>, keys: Seq<usize>) -> Seq<(usize, usize)>
    decreases keys.len(),
{
    if keys.len() == 0 {
        Seq::empty()
    } else {
        let v = keys.last();
        starts_in(diag, keys.drop_last()) + diag[v]@.map_values(|w: usize| (v, w))
    }
}

/// `starts` lists the entries of every list of the table, list by list,
/// each list once, in some order of the vertices.
pub open spec fn each_list_once(diag: Map<usize, Vec<usize>>, starts: Seq<(usize, usize)>) -> bool {
    exists|keys: Seq<usize>| {
        &&& keys.no_duplicates()
        &&& keys.to_set() == diag.dom()
        &&& #[trigger] starts_in(diag, keys) == starts
    }
}

/// Lists every diagonal of the table once from each end it is recorded at,
/// as the pair (vertex, listed vertex), in the order the map is walked.
/// That order is the map's own; whatever it is, the pairs are exactly the
/// entries of the lists.
pub fn diagonal_starts(diag: &HashMap<usize, Vec<usize>>) -> (starts: Vec<(usize, usize)>)
    ensures
        forall|q: int| 0 <= q < starts.len() ==> {
            &&& diag@.contains_key(#[trigger] starts[q].0)
            &&& diag@[starts[q].0]@.contains(starts[q].1)
        },
        forall|v: usize, w: usize| diag@.contains_key(v) && #[trigger] diag@[v]@.contains(w) ==> starts@.contains((v, w)),
        each_list_once(diag@, starts@),
{
    let mut starts: Vec<(usize, usize)> = Vec::new();
    let ghost keyseq = spec_hash_map_iter(diag).remaining().map_values(|kv: (&usize, &Vec<usize>)| *kv.0);
    assert(starts@ =~= starts_in(diag@, keyseq.take(0)));
    for kv in it: diag.iter()
        invariant
            forall|q: int| 0 <= q < starts.len() ==> {
                &&& diag@.contains_key(#[trigger] starts[q].0)
                &&& diag@[starts[q].0]@.contains(starts[q].1)
            },
            forall|p: int, w: usize| 0 <= p < it.index() && #[trigger] diag@[*it.seq()[p].0]@.contains(w)
                ==> starts@.contains((*it.seq()[p].0, w)),
            it.seq() == spec_hash_map_iter(diag).remaining(),
            keyseq == it.seq().map_values(|kv: (&usize, &Vec<usize>)| *kv.0),
            starts@ == starts_in(diag@, keyseq.take(it.index())),
    {
        let ghost idx = it.index();
        let ghost s0 = starts@;
        let (v, list) = kv;
        assert(*it.seq()[idx].0 == *v);
        let mut j: usize = 0;
        while j < list.len()
            invariant
                j <= list.len(),
                diag@.contains_key(*v),
                diag@[*v] == *list,
                forall|q: int| 0 <= q < starts.len() ==> {
                    &&& diag@.contains_key(#[trigger] starts[q].0)
                    &&& diag@[starts[q].0]@.contains(starts[q].1)
                },
                starts@.len() == s0.len() + j,
                forall|x: int| 0 <= x < s0.len() ==> #[trigger] starts@[x] == s0[x],
                forall|x: int| 0 <= x < j ==> #[trigger] starts@[s0.len() + x] == (*v, list@[x]),
                starts@ == s0 + list@.take(j as int).map_values(|w: usize| (*v, w)),
            decreases list.len() - j,
        {
            starts.push((*v, list[j]));
            j += 1;
            assert(starts@ =~= s0 + list@.take(j as int).map_values(|w: usize| (*v, w)));
        }
        proof {
            assert(list@.take(list.len() as int) =~= list@);
            assert(keyseq.take(idx + 1).drop_last() =~= keyseq.take(idx));
            assert(keyseq.take(idx + 1).last() == *v);
            assert(starts@ == starts_in(diag@, keyseq.take(idx + 1)));
        }
        assert forall|p: int, w: usize| 0 <= p <= idx && #[trigger] diag@[*it.seq()[p].0]@.contains(w)
            implies starts@.contains((*it.seq()[p].0, w)) by {
            if p < idx {
                assert(s0.contains((*it.seq()[p].0, w)));
                let y = choose|y: int| 0 <= y < s0.len() && s0[y] == (*it.seq()[p].0, w);
                assert(starts@[y] == s0[y]);
            } else {
                let x = choose|x: int| 0 <= x < list@.len() && list@[x] == w;
                assert(starts@[s0.len() + x] == (*v, list@[x]));
            }
        }
    }
    proof {
        assert forall|v: usize, w: usize| diag@.contains_key(v) && #[trigger] diag@[v]@.contains(w) implies starts@.contains((v, w)) by {
            let all = spec_hash_map_iter(diag).remaining();
            assert(all.contains((&v, &diag@[v])));
            let p = choose|p: int| 0 <= p < all.len() && all[p] == (&v, &diag@[v]);
            assert(*all[p].0 == v);
        }
        let all = spec_hash_map_iter(diag).remaining();
        assert(keyseq.take(keyseq.len() as int) =~= keyseq);
        assert(keyseq.no_duplicates()) by {
            assert forall|a: int, b: int| 0 <= a < keyseq.len() && 0 <= b < keyseq.len() && a != b
                implies keyseq[a] != keyseq[b] by {
                if keyseq[a] == keyseq[b] {
                    assert(diag@[*all[a].0] == *all[a].1);
                    assert(diag@[*all[b].0] == *all[b].1);
                    assert(all[a] == all[b]);
                }
            }
        }
        assert(keyseq.to_set() =~= diag@.dom()) by {
            assert forall|k: usize| keyseq.to_set().contains(k) implies diag@.dom().contains(k) by {
                let a = choose|a: int| 0 <= a < keyseq.len() && keyseq[a] == k;
                assert(diag@.contains_key(*all[a].0));
            }
            assert forall|k: usize| diag@.dom().contains(k) implies keyseq.to_set().contains(k) by {
                assert(all.contains((&k, &diag@[k])));
                let a = choose|a: int| 0 <= a < all.len() && all[a] == (&k, &diag@[k]);
                assert(keyseq[a] == k);
            }
        }
        assert(starts_in(diag@, keyseq) == starts@);
    }
    starts
}

/// How two coordinates compare; `Unordered` when one of them is not a
/// number.
#[derive(Debug, Clone, Copy, PartialEq, Eq, Structural)]
pub enum CoordOrder {
    Less,
    Equal,
    Greater,
    Unordered,
}

/// The answers the triangulation needs about the plane the polygon lies
/// in, as tables over the indices of the polygon's `n` vertices (computed
/// by the caller from the coordinates).
#[derive(Debug)]
pub struct PlaneTables {
    /// `before[a][b]`: vertex `a` comes before vertex `b` in the sweep order
    /// read bottom up: lower y first, and for equal y the greater x first.
    pub before: Vec<Vec<bool>>,
    /// `left[k][p]`: the boundary comes down to `k` from `p`: `p` lies
    /// higher, or as high and to the left of `k`.
    pub left: Vec<Vec<bool>>,
    /// `cross[f][b][t]`: how the cross product of `f - b` and `t - b`
    /// compares to zero.
    pub cross: Vec<Vec<Vec<CoordOrder>>>,
    /// `negative[a][b][c]`: the shoelace sum of the triangle `a`, `b`, `c`
    /// is negative.
    pub negative: Vec<Vec<Vec<bool>>>,
}

impl PlaneTables {
    /// The number of vertices the tables speak of.
    pub open spec fn size(&self) -> nat {
        self.before@.len()
    }

    /// Every table has an entry for every pair (or triple) of vertices.
    pub open spec fn wf(&self) -> bool {
        let n = self.size();
        &&& forall|a: int| 0 <= a < n ==> #[trigger] self.before@[a]@.len() == n
        &&& self.left@.len() == n
        &&& forall|a: int| 0 <= a < n ==> #[trigger] self.left@[a]@.len() == n
        &&& self.cross@.len() == n
        &&& forall|a: int| 0 <= a < n ==> #[trigger] self.cross@[a]@.len() == n
        &&& forall|a: int, b: int| 0 <= a < n && 0 <= b < n ==> #[trigger] self.cross@[a]@[b]@.len() == n
        &&& self.negative@.len() == n
        &&& forall|a: int| 0 <= a < n ==> #[trigger] self.negative@[a]@.len() == n
        &&& forall|a: int, b: int| 0 <= a < n && 0 <= b < n ==> #[trigger] self.negative@[a]@[b]@.len() == n
    }

    pub open spec fn before_spec(&self, a: usize, b: usize) -> bool {
        self.before@[a as int]@[b as int]
    }

    pub open spec fn left_spec(&self, k: usize, p: usize) -> bool {
        self.left@[k as int]@[p as int]
    }

    /// The diagonal from `f` to `t` runs inside the piece at `b`: the cross
    /// product is positive when the chain comes from the left and negative
    /// otherwise.
    pub open spec fn inside_spec(&self, f: usize, b: usize, t: usize, from_left: bool) -> bool {
        let c = self.cross@[f as int]@[b as int]@[t as int];
        if from_left { c == CoordOrder::Greater } else { c == CoordOrder::Less }
    }

    pub open spec fn negative_spec(&self, a: usize, b: usize, c: usize) -> bool {
        self.negative@[a as int]@[b as int]@[c as int]
    }

    pub fn sorts_before(&self, a: usize, b: usize) -> (r: bool)
        requires
            self.wf(),
            a < self.size(),
            b < self.size(),
        ensures
            r == self.before_spec(a, b),
    {
        self.before[a][b]
    }

    pub fn from_left(&self, k: usize, p: usize) -> (r: bool)
        requires
            self.wf(),
            k < self.size(),
            p < self.size(),
        ensures
            r == self.left_spec(k, p),
    {
        self.left[k][p]
    }

    pub fn is_inside(&self, f: usize, b: usize, t: usize, from_left: bool) -> (r: bool)
        requires
            self.wf(),
            f < self.size(),
            b < self.size(),
            t < self.size(),
        ensures
            r == self.inside_spec(f, b, t, from_left),
    {
        let c = self.cross[f][b][t];
        if from_left { c == CoordOrder::Greater } else { c == CoordOrder::Less }
    }

    pub fn area_negative(&self, a: usize, b: usize, c: usize) -> (r: bool)
        requires
            self.wf(),
            a < self.size(),
            b < self.size(),
            c < self.size(),
        ensures
            r == self.negative_spec(a, b, c),
    {
        self.negative[a][b][c]
    }
}

/// The vertices of `piece` are vertices the tables speak of.
pub open spec fn on_tables(piece: Seq<usize>, geo: PlaneTables) -> bool {
    forall|i: int| 0 <= i < piece.len() ==> #[trigger] piece[i] < geo.size()
}

/// Where the stable insertion of position `a` into `s` ends, scanning down
/// from `pos`: past every element that `a` sorts before.
pub open spec fn insert_pos(geo: PlaneTables, piece: Seq<usize>, s: Seq<usize>, a: usize, pos: int) -> int
    decreases pos,
{
    if pos > 0 && geo.before_spec(piece[a as int], piece[s[pos - 1] as int]) {
        insert_pos(geo, piece, s, a, pos - 1)
    } else {
        pos
    }
}

/// The first `a` positions of the piece, stably sorted bottom up.
pub open spec fn ascending(geo: PlaneTables, piece: Seq<usize>, a: nat) -> Seq<usize>
    decreases a,
{
    if a == 0 {
        Seq::empty()
    } else {
        let s = ascending(geo, piece, (a - 1) as nat);
        s.insert(insert_pos(geo, piece, s, (a - 1) as usize, s.len() as int), (a - 1) as usize)
    }
}

/// The positions of the piece in the order the sweep meets them, top down.
pub open spec fn sweep_order_spec(geo: PlaneTables, piece: Seq<usize>) -> Seq<usize> {
    ascending(geo, piece, piece.len()).reverse()
}

proof fn lemma_insert_pos_range(geo: PlaneTables, piece: Seq<usize>, s: Seq<usize>, a: usize, pos: int)
    requires
        0 <= pos,
    ensures
        0 <= insert_pos(geo, piece, s, a, pos) <= pos,
    decreases pos,
{
    if pos > 0 && geo.before_spec(piece[a as int], piece[s[pos - 1] as int]) {
        lemma_insert_pos_range(geo, piece, s, a, pos - 1);
    }
}

/// `s` orders the positions `0..m`: each exactly once.
pub open spec fn is_order_of(s: Seq<usize>, m: nat) -> bool {
    &&& s.len() == m
    &&& forall|x: int| 0 <= x < s.len() ==> #[trigger] s[x] < m
    &&& s.no_duplicates()
}

/// The positions of the vertices of `piece` in the order the sweep meets
/// them, top down: a stable sort by [`PlaneTables::sorts_before`], read
/// backwards (see [`sweep_order_spec`]).  Each position comes once.
pub fn sweep_order(geo: &PlaneTables, piece: &Vec<usize>) -> (sorted: Vec<usize>)
    requires
        geo.wf(),
        on_tables(piece@, *geo),
    ensures
        sorted@ == sweep_order_spec(*geo, piece@),
        is_order_of(sorted@, piece.len() as nat),
{
    let m = piece.len();
    let mut asc: Vec<usize> = Vec::new();
    let mut a: usize = 0;
    while a < m
        invariant
            a <= m,
            m == piece.len(),
            geo.wf(),
            on_tables(piece@, *geo),
            is_order_of(asc@, a as nat),
            asc@ == ascending(*geo, piece@, a as nat),
        decreases m - a,
    {
        let mut pos: usize = asc.len();
        while pos > 0 && geo.sorts_before(piece[a], piece[asc[pos - 1]])
            invariant
                pos <= asc.len(),
                a < m,
                m == piece.len(),
                geo.wf(),
                on_tables(piece@, *geo),
                is_order_of(asc@, a as nat),
                insert_pos(*geo, piece@, asc@, a, pos as int) == insert_pos(*geo, piece@, asc@, a, asc@.len() as int),
            decreases pos,
        {
            pos -= 1;
        }
        let ghost before = asc@;
        asc.insert(pos, a);
        assert(asc@ == ascending(*geo, piece@, (a + 1) as nat));
        proof {
            assert forall|x: int, y: int| 0 <= x < asc@.len() && 0 <= y < asc@.len() && x != y implies asc@[x] != asc@[y] by {
                if x != pos && y != pos {
                    let x0 = if x < pos { x } else { x - 1 };
                    let y0 = if y < pos { y } else { y - 1 };
                    assert(asc@[x] == before[x0]);
                    assert(asc@[y] == before[y0]);
                } else if x == pos {
                    let y0 = if y < pos { y } else { y - 1 };
                    assert(asc@[y] == before[y0]);
                } else {
                    let x0 = if x < pos { x } else { x - 1 };
                    assert(asc@[x] == before[x0]);
                }
            }
            assert forall|x: int| 0 <= x < asc@.len() implies #[trigger] asc@[x] < a + 1 by {
                if x < pos {
                    assert(asc@[x] == before[x]);
                } else if x > pos {
                    assert(asc@[x] == before[x - 1]);
                }
            }
        }
        a += 1;
    }
    let mut sorted: Vec<usize> = Vec::new();
    let mut r: usize = m;
    while r > 0
        invariant
            r <= m,
            is_order_of(asc@, m as nat),
            asc@ == ascending(*geo, piece@, m as nat),
            m == piece.len(),
            sorted.len() == m - r,
            forall|x: int| 0 <= x < sorted.len() ==> #[trigger] sorted@[x] == asc@[m - 1 - x],
        decreases r,
    {
        r -= 1;
        sorted.push(asc[r]);
    }
    proof {
        assert forall|x: int, y: int| 0 <= x < sorted@.len() && 0 <= y < sorted@.len() && x != y implies sorted@[x] != sorted@[y] by {
            assert(sorted@[x] == asc@[m - 1 - x]);
            assert(sorted@[y] == asc@[m - 1 - y]);
        }
        assert forall|x: int| 0 <= x < sorted@.len() implies #[trigger] sorted@[x] < m by {
            assert(sorted@[x] == asc@[m - 1 - x]);
        }
        assert(sorted@ =~= asc@.reverse());
    }
    sorted
}

/// The indices of the triangle whose corners stand at the positions `t` of
/// the piece.
pub open spec fn triangle_indices(piece: Seq<usize>, t: (usize, usize, usize)) -> Seq<u32> {
    seq![piece[t.0 as int] as u32, piece[t.1 as int] as u32, piece[t.2 as int] as u32]
}

/// The indices of the triangles `tris`, one after the other.
pub open spec fn emitted(piece: Seq<usize>, tris: Seq<(usize, usize, usize)>) -> Seq<u32>
    decreases tris.len(),
{
    if tris.len() == 0 {
        Seq::empty()
    } else {
        emitted(piece, tris.drop_last()) + triangle_indices(piece, tris.last())
    }
}

/// Three different positions of a piece of `m` vertices.
pub open spec fn proper_triangle(t: (usize, usize, usize), m: nat) -> bool {
    &&& t.0 < m && t.1 < m && t.2 < m
    &&& t.0 != t.1 && t.1 != t.2 && t.0 != t.2
}

/// The triangle on the positions `a`, `b`, `c` of the piece as it is
/// emitted: its last two corners in the order the shoelace test asks for.
pub open spec fn tri_spec(geo: PlaneTables, piece: Seq<usize>, a: usize, b: usize, c: usize) -> Seq<u32> {
    if geo.negative_spec(piece[a as int], piece[b as int], piece[c as int]) {
        triangle_indices(piece, (a, b, c))
    } else {
        triangle_indices(piece, (a, c, b))
    }
}

/// The position before `k` on the boundary of a piece of `m` vertices.
pub open spec fn prev_pos(m: int, k: usize) -> usize {
    if k == 0 { (m - 1) as usize } else { (k - 1) as usize }
}

/// The fan from `k` to the stack `st` when `k` lies on the other chain: the
/// triangles `k, st[u], st[u - 1]` for `u` from `u` down to 1.
pub open spec fn fan_down(geo: PlaneTables, piece: Seq<usize>, k: usize, st: Seq<usize>, u: int) -> Seq<u32>
    decreases u,
{
    if u <= 0 {
        Seq::empty()
    } else {
        tri_spec(geo, piece, k, st[u], st[u - 1]) + fan_down(geo, piece, k, st, u - 1)
    }
}

/// The pops when `k` lies on the chain of the stack's top (already taken
/// off): while the stack `st` is not empty, its last vertex is taken and,
/// as long as the diagonal from `k` to it runs inside the piece, the
/// triangle `k`, `last_popped`, that vertex is emitted; the first vertex
/// whose diagonal does not run inside goes back.  Which side is inside
/// depends on the chain of `k` and on the piece's orientation `ccw`.
/// Gives the stack left, the vertex to push back, and the triangles.
pub open spec fn pops(
    geo: PlaneTables,
    piece: Seq<usize>,
    k: usize,
    prev_k: usize,
    ccw: bool,
    st: Seq<usize>,
    last_popped: usize,
) -> (Seq<usize>, usize, Seq<u32>)
    decreases st.len(),
{
    if st.len() == 0 {
        (st, last_popped, Seq::empty())
    } else {
        let popped = st.last();
        if geo.inside_spec(
            piece[k as int],
            piece[popped as int],
            piece[last_popped as int],
            geo.left_spec(piece[k as int], piece[prev_k as int]) != ccw,
        ) {
            let r = pops(geo, piece, k, prev_k, ccw, st.drop_last(), popped);
            (r.0, r.1, tri_spec(geo, piece, k, last_popped, popped) + r.2)
        } else {
            (st, last_popped, Seq::empty())
        }
    }
}

/// The closing fan from the lowest vertex `fr` to the stack `st`: the
/// triangles `fr, st[i], st[i - 1]` for `i` from `i` up to the top.
pub open spec fn fan_up(geo: PlaneTables, piece: Seq<usize>, fr: usize, st: Seq<usize>, i: int) -> Seq<u32>
    decreases st.len() - i,
{
    if i <= 0 || i >= st.len() {
        Seq::empty()
    } else {
        tri_spec(geo, piece, fr, st[i], st[i - 1]) + fan_up(geo, piece, fr, st, i + 1)
    }
}

/// The stack walk from step `idx` of the sweep order `sorted`, with the
/// stack `stack` and the vertex met last `last_k`.
pub open spec fn walk_from(
    geo: PlaneTables,
    piece: Seq<usize>,
    sorted: Seq<usize>,
    idx: int,
    stack: Seq<usize>,
    last_k: usize,
    ccw: bool,
) -> Seq<u32>
    decreases piece.len() - idx,
{
    let m = piece.len() as int;
    if idx < 0 || idx >= m - 1 || stack.len() == 0 {
        fan_up(geo, piece, sorted[m - 1], stack, 1)
    } else {
        let k = sorted[idx];
        let prev_k = prev_pos(m, k);
        let top = stack.last();
        let prev_top = prev_pos(m, top);
        if geo.left_spec(piece[k as int], piece[prev_k as int]) != geo.left_spec(piece[top as int], piece[prev_top as int]) {
            fan_down(geo, piece, k, stack, stack.len() - 1) + walk_from(geo, piece, sorted, idx + 1, seq![last_k, k], k, ccw)
        } else {
            let r = pops(geo, piece, k, prev_k, ccw, stack.drop_last(), top);
            r.2 + walk_from(geo, piece, sorted, idx + 1, r.0.push(r.1).push(k), k, ccw)
        }
    }
}

/// The position after `k` on the boundary of a piece of `m` vertices.
pub open spec fn next_pos(m: int, k: usize) -> usize {
    if k + 1 == m { 0 } else { (k + 1) as usize }
}

/// The piece turns counter-clockwise at its position `v`: the cross
/// product of the edge into `v` and the edge out of it is positive.  At
/// the topmost vertex, whose angle is convex, this is the piece's
/// orientation.
pub open spec fn turns_ccw(geo: PlaneTables, piece: Seq<usize>, v: usize) -> bool {
    let m = piece.len() as int;
    geo.cross@[piece[next_pos(m, v) as int] as int]@[piece[v as int] as int]@[piece[prev_pos(m, v) as int] as int]
        == CoordOrder::Greater
}

/// The triangle indices the stack walk gives for a piece: the sweep meets
/// its vertices top down; a vertex on the other chain than the stack's top
/// (the chain of a vertex is told by whether the boundary comes down to it
/// from the position before it) is joined to the whole stack, one on the same chain to the stack's
/// vertices as long as the diagonals run inside; the lowest vertex closes
/// with the stack left.  The inside test of a diagonal follows the piece's
/// orientation, read at its topmost vertex.
pub open spec fn stack_walk(geo: PlaneTables, piece: Seq<usize>) -> Seq<u32> {
    let sorted = sweep_order_spec(geo, piece);
    walk_from(geo, piece, sorted, 2, seq![sorted[0], sorted[1]], sorted[1], turns_ccw(geo, piece, sorted[0]))
}

/// Appends the triangle on the positions `a`, `b`, `c` of the piece, its
/// last two corners in the order the shoelace test asks for.
fn emit_triangle(geo: &PlaneTables, piece: &Vec<usize>, a: usize, b: usize, c: usize, out: &mut Vec<u32>)
    requires
        geo.wf(),
        on_tables(piece@, *geo),
        a < piece.len(),
        b < piece.len(),
        c < piece.len(),
    ensures
        final(out)@ == old(out)@ + tri_spec(*geo, piece@, a, b, c),
{
    let n0 = piece[a];
    let n1 = piece[b];
    let n2 = piece[c];
    out.push(n0 as u32);
    if geo.area_negative(n0, n1, n2) {
        out.push(n1 as u32);
        out.push(n2 as u32);
        assert(out@ =~= old(out)@ + triangle_indices(piece@, (a, b, c)));
    } else {
        out.push(n2 as u32);
        out.push(n1 as u32);
        assert(out@ =~= old(out)@ + triangle_indices(piece@, (a, c, b)));
    }
}

/// Every triangle of `tris` stands on three different positions of a piece
/// of `m` vertices.
pub open spec fn all_proper(tris: Seq<(usize, usize, usize)>, m: nat) -> bool {
    forall|q: int| 0 <= q < tris.len() ==> proper_triangle(#[trigger] tris[q], m)
}

/// The ghost bookkeeping after one more triangle: `tris` with the triangle
/// on `a`, `b`, `c` that `emit_triangle` appended, in the order it appended
/// its corners.
proof fn note_triangle(
    piece: Seq<usize>,
    tris: Seq<(usize, usize, usize)>,
    before: Seq<u32>,
    after: Seq<u32>,
    a: usize,
    b: usize,
    c: usize,
    m: nat,
) -> (tris2: Seq<(usize, usize, usize)>)
    requires
        after == before + triangle_indices(piece, (a, b, c)) || after == before + triangle_indices(piece, (a, c, b)),
        proper_triangle((a, b, c), m),
        all_proper(tris, m),
    ensures
        tris2.len() == tris.len() + 1,
        all_proper(tris2, m),
        after == before + triangle_indices(piece, tris2.last()),
        emitted(piece, tris2) == emitted(piece, tris) + triangle_indices(piece, tris2.last()),
        triangle_indices(piece, tris2.last()) == after.subrange(before.len() as int, after.len() as int),
{
    let t = if after == before + triangle_indices(piece, (a, b, c)) { (a, b, c) } else { (a, c, b) };
    let tris2 = tris.push(t);
    assert((before + triangle_indices(piece, t)).subrange(before.len() as int, after.len() as int)
        =~= triangle_indices(piece, t));
    assert(tris2.drop_last() =~= tris);
    assert forall|q: int| 0 <= q < tris2.len() implies proper_triangle(#[trigger] tris2[q], m) by {
        if q < tris.len() {
            assert(tris2[q] == tris[q]);
        }
    }
    tris2
}

/// A position met before step `idx` of the sweep order is still met
/// before step `idx + 1`.
proof fn lemma_met_before_grows(sorted: Seq<usize>, idx: int, e: usize)
    requires
        0 <= idx < sorted.len(),
        sorted.take(idx).contains(e),
    ensures
        sorted.take(idx + 1).contains(e),
{
    let p = choose|p: int| 0 <= p < idx && sorted.take(idx)[p] == e;
    assert(sorted.take(idx + 1)[p] == e);
}

/// The position met at step `idx` of the sweep order was not met before.
proof fn lemma_not_met_before(sorted: Seq<usize>, idx: int)
    requires
        0 <= idx < sorted.len(),
        sorted.no_duplicates(),
    ensures
        !sorted.take(idx).contains(sorted[idx]),
{
    if sorted.take(idx).contains(sorted[idx]) {
        let p = choose|p: int| 0 <= p < idx && sorted.take(idx)[p] == sorted[idx];
        assert(sorted[p] == sorted[idx]);
    }
}

/// Cuts a piece that is monotone in y into triangles, walking its vertices
/// top down with a stack.  `piece` holds the polygon's vertex indices in the
/// order of the piece's boundary.  The indices appended to `out` are those
/// of [`stack_walk`]; a piece of `m` vertices gives exactly `m - 2`
/// triangles, each on three different vertices of the piece.
#[verifier::spinoff_prover]
#[verifier::rlimit(80)]
pub fn triangulate_piece(geo: &PlaneTables, piece: &Vec<usize>, out: &mut Vec<u32>)
    requires
        piece.len() >= 3,
        geo.wf(),
        on_tables(piece@, *geo),
    ensures
        final(out)@ == old(out)@ + stack_walk(*geo, piece@),
        exists|tris: Seq<(usize, usize, usize)>| {
            &&& tris.len() == piece.len() - 2
            &&& all_proper(tris, piece.len() as nat)
            &&& final(out)@ == old(out)@ + emitted(piece@, tris)
        },
{
    let m = piece.len();
    let sorted = sweep_order(geo, piece);
    let t0 = sorted[0];
    let after_top = if t0 + 1 == m { 0 } else { t0 + 1 };
    let before_top = if t0 == 0 { m - 1 } else { t0 - 1 };
    let ccw = geo.is_inside(piece[after_top], piece[t0], piece[before_top], true);
    let mut stack: Vec<usize> = Vec::new();
    stack.push(sorted[0]);
    stack.push(sorted[1]);
    let ghost out0 = out@;
    let ghost mut tris: Seq<(usize, usize, usize)> = Seq::empty();
    let ghost total = stack_walk(*geo, piece@);
    let mut last_k = sorted[1];
    let mut idx: usize = 2;
    proof {
        assert(stack@ =~= seq![sorted@[0], sorted@[1]]);
        assert(emitted(piece@, tris) + walk_from(*geo, piece@, sorted@, idx as int, stack@, last_k, ccw) =~= total);
        assert(sorted@.take(2)[0] == sorted@[0]);
        assert(sorted@.take(2)[1] == sorted@[1]);
        assert(out@ =~= out0 + emitted(piece@, tris));
    }
    while idx < m - 1
        invariant
            m == piece.len(),
            m >= 3,
            2 <= idx <= m - 1,
            is_order_of(sorted@, m as nat),
            stack.len() >= 2,
            stack@.no_duplicates(),
            forall|x: int| 0 <= x < stack.len() ==> sorted@.take(idx as int).contains(#[trigger] stack@[x]),
            last_k == sorted@[idx - 1],
            tris.len() + stack.len() == idx,
            all_proper(tris, m as nat),
            out@ == out0 + emitted(piece@, tris),
            geo.wf(),
            on_tables(piece@, *geo),
            sorted@ == sweep_order_spec(*geo, piece@),
            total == stack_walk(*geo, piece@),
            emitted(piece@, tris) + walk_from(*geo, piece@, sorted@, idx as int, stack@, last_k, ccw) == total,
        decreases m - 1 - idx,
    {
        let k = sorted[idx];
        proof {
            lemma_not_met_before(sorted@, idx as int);
        }
        let prev_k = if k == 0 { m - 1 } else { k - 1 };
        let ghost stack_s = stack@;
        let top = stack.pop().unwrap();
        let prev_top = if top == 0 { m - 1 } else { top - 1 };
        assert(sorted@.take(idx as int).contains(stack_s[stack_s.len() - 1]));
        if geo.from_left(piece[k], piece[prev_k]) != geo.from_left(piece[top], piece[prev_top]) {
            stack.push(top);
            assert(stack@ =~= stack_s);
            let ghost tb = tris.len();
            let ghost rest = walk_from(*geo, piece@, sorted@, idx + 1, seq![last_k, k], k, ccw);
            let mut u: usize = stack.len() - 1;
            assert(walk_from(*geo, piece@, sorted@, idx as int, stack_s, last_k, ccw)
                == fan_down(*geo, piece@, k, stack_s, u as int) + rest);
            assert(emitted(piece@, tris) + (fan_down(*geo, piece@, k, stack_s, u as int) + rest)
                =~= emitted(piece@, tris) + fan_down(*geo, piece@, k, stack_s, u as int) + rest);
            while u != 0
                invariant
                    m == piece.len(),
                    k < m,
                    geo.wf(),
                    on_tables(piece@, *geo),
                    emitted(piece@, tris) + fan_down(*geo, piece@, k, stack_s, u as int) + rest == total,
                    stack@ == stack_s,
                    u < stack.len(),
                    stack@.no_duplicates(),
                    forall|x: int| 0 <= x < stack.len() ==> #[trigger] stack@[x] != k && stack@[x] < m,
                    tris.len() == tb + (stack.len() - 1 - u),
                    all_proper(tris, m as nat),
                    out@ == out0 + emitted(piece@, tris),
                decreases u,
            {
                let ghost before = out@;
                emit_triangle(geo, piece, k, stack[u], stack[u - 1], out);
                proof {
                    let e0 = emitted(piece@, tris);
                    let t = tri_spec(*geo, piece@, k, stack@[u as int], stack@[u - 1]);
                    tris = note_triangle(piece@, tris, before, out@, k, stack@[u as int], stack@[u - 1], m as nat);
                    assert(out@ == before + t);
                    assert(out@.subrange(before.len() as int, out@.len() as int) =~= t);
                    assert(emitted(piece@, tris) =~= e0 + t);
                    assert(e0 + fan_down(*geo, piece@, k, stack_s, u as int) + rest
                        =~= emitted(piece@, tris) + fan_down(*geo, piece@, k, stack_s, u - 1) + rest);
                }
                u -= 1;
            }
            stack = Vec::new();
            stack.push(last_k);
            stack.push(k);
            proof {
                assert(stack@ =~= seq![last_k, k]);
                assert(emitted(piece@, tris) + Seq::<u32>::empty() + rest =~= emitted(piece@, tris) + rest);
                lemma_not_met_before(sorted@, idx as int - 1);
                assert(sorted@.take(idx + 1)[idx - 1] == last_k);
                assert(sorted@.take(idx + 1)[idx as int] == k);
            }
        } else {
            let ghost st0 = stack@;
            let ghost base = stack.len();
            let ghost tb = tris.len();
            let ghost fin = pops(*geo, piece@, k, prev_k, ccw, st0, top);
            let ghost rest = walk_from(*geo, piece@, sorted@, idx + 1, fin.0.push(fin.1).push(k), k, ccw);
            let mut last_popped = top;
            let mut popped: usize = 0;
            let mut done = false;
            assert(stack_s.drop_last() =~= st0);
            assert(walk_from(*geo, piece@, sorted@, idx as int, stack_s, last_k, ccw) == fin.2 + rest);
            assert(emitted(piece@, tris) + (fin.2 + rest) =~= emitted(piece@, tris) + fin.2 + rest);
            while !done && stack.len() > 0
                invariant
                    geo.wf(),
                    on_tables(piece@, *geo),
                    fin == pops(*geo, piece@, k, prev_k, ccw, st0, top),
                    !done ==> pops(*geo, piece@, k, prev_k, ccw, stack@, last_popped).0 == fin.0,
                    !done ==> pops(*geo, piece@, k, prev_k, ccw, stack@, last_popped).1 == fin.1,
                    !done ==> emitted(piece@, tris) + pops(*geo, piece@, k, prev_k, ccw, stack@, last_popped).2 + rest == total,
                    done ==> stack@ == fin.0 && popped == fin.1 && emitted(piece@, tris) + rest == total,
                    done ==> popped == last_popped,
                    m == piece.len(),
                    k < m,
                    prev_k < m,
                    top < m,
                    base >= 1,
                    base == st0.len(),
                    st0.no_duplicates(),
                    forall|x: int| 0 <= x < st0.len() ==> #[trigger] st0[x] != k && st0[x] != top && st0[x] < m,
                    top != k,
                    stack.len() <= base,
                    stack@ == st0.take(stack.len() as int),
                    tris.len() - tb + stack.len() == base,
                    tris.len() >= tb,
                    tris.len() == tb ==> last_popped == top,
                    tris.len() > tb ==> stack.len() < base && last_popped == st0[stack.len() as int] && popped == last_popped,
                    all_proper(tris, m as nat),
                    out@ == out0 + emitted(piece@, tris),
                decreases stack.len() + (if done { 0int } else { 1int }),
            {
                let ghost cur = stack@;
                let ghost lp = last_popped;
                popped = stack.pop().unwrap();
                assert(popped == st0[stack.len() as int]);
                assert(stack@ == cur.drop_last() && popped == cur.last());
                if geo.is_inside(piece[k], piece[popped], piece[last_popped], geo.from_left(piece[k], piece[prev_k]) != ccw) {
                    let ghost before = out@;
                    emit_triangle(geo, piece, k, last_popped, popped, out);
                    proof {
                        let e0 = emitted(piece@, tris);
                        let t = tri_spec(*geo, piece@, k, lp, popped);
                        tris = note_triangle(piece@, tris, before, out@, k, last_popped, popped, m as nat);
                        assert(out@.subrange(before.len() as int, out@.len() as int) =~= t);
                    assert(emitted(piece@, tris) =~= e0 + t);
                        let r = pops(*geo, piece@, k, prev_k, ccw, stack@, popped);
                        assert(pops(*geo, piece@, k, prev_k, ccw, cur, lp) == (r.0, r.1, t + r.2));
                        assert(e0 + (t + r.2) + rest =~= emitted(piece@, tris) + r.2 + rest);
                    }
                    last_popped = popped;
                    assert(stack@ =~= st0.take(stack.len() as int));
                } else {
                    stack.push(popped);
                    assert(stack@ =~= st0.take(stack.len() as int));
                    proof {
                        assert(stack@ =~= cur);
                        assert(pops(*geo, piece@, k, prev_k, ccw, cur, lp) == (cur, lp, Seq::<u32>::empty()));
                        assert(emitted(piece@, tris) + Seq::<u32>::empty() =~= emitted(piece@, tris));
                    }
                    popped = last_popped;
                    done = true;
                }
            }
            proof {
                if !done {
                    assert(stack@.len() == 0);
                    assert(pops(*geo, piece@, k, prev_k, ccw, stack@, last_popped) == (stack@, last_popped, Seq::<u32>::empty()));
                    assert(emitted(piece@, tris) + Seq::<u32>::empty() =~= emitted(piece@, tris));
                }
            }
            let ghost stack_f = stack@;
            stack.push(popped);
            stack.push(k);
            assert(stack@ == fin.0.push(fin.1).push(k));
            proof {
                let len = stack.len() - 2;
                assert(stack_f.len() == len);
                assert(popped == stack_s[len as int]) by {
                    if tris.len() > tb {
                        assert(st0[len as int] == stack_s[len as int]);
                    } else {
                        assert(len == base);
                    }
                }
                assert(stack@ =~= stack_s.take(len + 1).push(k)) by {
                    assert forall|x: int| 0 <= x < len implies #[trigger] stack@[x] == stack_s[x] by {
                        assert(stack_f[x] == st0[x]);
                    }
                }
                assert(!stack_s.contains(k)) by {
                    if stack_s.contains(k) {
                        let y = choose|y: int| 0 <= y < stack_s.len() && stack_s[y] == k;
                        assert(sorted@.take(idx as int).contains(stack_s[y]));
                    }
                }
                assert forall|x: int, y: int| 0 <= x < stack@.len() && 0 <= y < stack@.len() && x != y implies stack@[x] != stack@[y] by {
                    if x < len + 1 && y < len + 1 {
                        assert(stack@[x] == stack_s[x]);
                        assert(stack@[y] == stack_s[y]);
                    } else if x < len + 1 {
                        assert(stack@[x] == stack_s[x]);
                    } else if y < len + 1 {
                        assert(stack@[y] == stack_s[y]);
                    }
                }
                assert forall|x: int| 0 <= x < stack.len() implies sorted@.take(idx + 1).contains(#[trigger] stack@[x]) by {
                    if x < len + 1 {
                        assert(stack@[x] == stack_s[x]);
                        lemma_met_before_grows(sorted@, idx as int, stack@[x]);
                    } else {
                        assert(sorted@.take(idx + 1)[idx as int] == k);
                    }
                }
            }
        }
        proof {
            assert forall|x: int| 0 <= x < stack.len() implies sorted@.take(idx + 1).contains(#[trigger] stack@[x]) by {
                if stack@[x] == k {
                    assert(sorted@.take(idx + 1)[idx as int] == k);
                } else if stack@[x] == last_k {
                    assert(sorted@.take(idx + 1)[idx - 1] == last_k);
                }
            }
        }
        last_k = k;
        idx += 1;
    }
    let fr_diag = sorted[m - 1];
    proof {
        lemma_not_met_before(sorted@, m - 1);
        assert(walk_from(*geo, piece@, sorted@, idx as int, stack@, last_k, ccw) == fan_up(*geo, piece@, fr_diag, stack@, 1));
    }
    let mut i: usize = 1;
    while i < stack.len()
        invariant
            m == piece.len(),
            fr_diag < m,
            1 <= i <= stack.len(),
            stack@.no_duplicates(),
            forall|x: int| 0 <= x < stack.len() ==> #[trigger] stack@[x] != fr_diag && stack@[x] < m,
            tris.len() == m - 1 - stack.len() + (i - 1),
            all_proper(tris, m as nat),
            out@ == out0 + emitted(piece@, tris),
            geo.wf(),
            on_tables(piece@, *geo),
            emitted(piece@, tris) + fan_up(*geo, piece@, fr_diag, stack@, i as int) == total,
            total == stack_walk(*geo, piece@),
        decreases stack.len() - i,
    {
        let ghost before = out@;
        emit_triangle(geo, piece, fr_diag, stack[i], stack[i - 1], out);
        proof {
            let e0 = emitted(piece@, tris);
            let t = tri_spec(*geo, piece@, fr_diag, stack@[i as int], stack@[i - 1]);
            tris = note_triangle(piece@, tris, before, out@, fr_diag, stack@[i as int], stack@[i - 1], m as nat);
            assert(out@.subrange(before.len() as int, out@.len() as int) =~= t);
                    assert(emitted(piece@, tris) =~= e0 + t);
            assert(e0 + fan_up(*geo, piece@, fr_diag, stack@, i as int)
                =~= emitted(piece@, tris) + fan_up(*geo, piece@, fr_diag, stack@, i + 1));
        }
        i += 1;
    }
    assert(emitted(piece@, tris) + Seq::<u32>::empty() =~= emitted(piece@, tris));
}

/// The stack walks of the pieces, piece after piece.
pub open spec fn all_walks(geo: PlaneTables, pieces: Seq<Seq<usize>>) -> Seq<u32>
    decreases pieces.len(),
{
    if pieces.len() == 0 {
        Seq::empty()
    } else {
        all_walks(geo, pieces.drop_last()) + stack_walk(geo, pieces.last())
    }
}

/// The pieces `select` finds, start edge by start edge, beginning with the
/// table of used edges `used`.
pub open spec fn selected_pieces(
    geo: PlaneTables,
    used: Map<(usize, usize), usize>,
    n: usize,
    extra: Map<usize, Vec<usize>>,
    starts: Seq<(usize, usize)>,
) -> Seq<Seq<usize>>
    decreases starts.len(),
{
    if starts.len() == 0 {
        Seq::empty()
    } else {
        let (after, out) = select_outcome(geo, used, n, extra, starts[0].0, starts[0].1);
        let rest = selected_pieces(geo, after, n, extra, starts.drop_first());
        match out {
            Ok(p) => seq![p] + rest,
            Err(_) => rest,
        }
    }
}

/// The indices of the triangles of all pieces, piece after piece.
pub open spec fn all_emitted(pieces: Seq<Seq<usize>>, tri_sets: Seq<Seq<(usize, usize, usize)>>) -> Seq<u32>
    decreases pieces.len(),
{
    if pieces.len() == 0 || tri_sets.len() == 0 {
        Seq::empty()
    } else {
        all_emitted(pieces.drop_last(), tri_sets.drop_last()) + emitted(pieces.last(), tri_sets.last())
    }
}

/// `out` holds, piece after piece, `m - 2` triangles for each piece of `m`
/// vertices, each on three different vertices of its piece.
pub open spec fn triangulates(pieces: Seq<Seq<usize>>, tri_sets: Seq<Seq<(usize, usize, usize)>>, out: Seq<u32>) -> bool {
    &&& tri_sets.len() == pieces.len()
    &&& forall|q: int| 0 <= q < pieces.len() ==> {
        &&& #[trigger] tri_sets[q].len() == pieces[q].len() - 2
        &&& all_proper(tri_sets[q], pieces[q].len())
    }
    &&& out == all_emitted(pieces, tri_sets)
}

/// Finds the piece that starts at each edge of `starts` in turn, with one
/// selector, and triangulates each piece found (see [`triangulate_piece`]);
/// a start edge that gives no piece is passed over.
pub fn triangulate_pieces(
    geo: &PlaneTables,
    n: usize,
    diag: &HashMap<usize, Vec<usize>>,
    starts: &Vec<(usize, usize)>,
) -> (out: Vec<u32>)
    requires
        segments_within(diag@, n),
        forall|q: int| 0 <= q < starts.len() ==> #[trigger] starts[q].0 < n && starts[q].1 < n,
        geo.wf(),
        geo.size() == n,
    ensures
        out@ == all_walks(*geo, selected_pieces(*geo, Map::empty(), n, diag@, starts@)),
        exists|tri_sets: Seq<Seq<(usize, usize, usize)>>|
            triangulates(selected_pieces(*geo, Map::empty(), n, diag@, starts@), tri_sets, out@),
{
    let mut selector = PolygonSelector::new();
    let mut out: Vec<u32> = Vec::new();
    let ghost mut pieces: Seq<Seq<usize>> = Seq::empty();
    let ghost mut tri_sets: Seq<Seq<(usize, usize, usize)>> = Seq::empty();
    let ghost all = selected_pieces(*geo, Map::empty(), n, diag@, starts@);
    let mut q: usize = 0;
    assert(starts@.skip(0) =~= starts@);
    assert(pieces + all =~= all);
    assert(out@ =~= all_walks(*geo, pieces));
    while q < starts.len()
        invariant
            segments_within(diag@, n),
            forall|x: int| 0 <= x < starts.len() ==> #[trigger] starts[x].0 < n && starts[x].1 < n,
            q <= starts.len(),
            all == selected_pieces(*geo, Map::empty(), n, diag@, starts@),
            all == pieces + selected_pieces(*geo, selector.used_map(), n, diag@, starts@.skip(q as int)),
            forall|e: (usize, usize)| #[trigger] selector.used_map().contains_key(e) ==> selector.used_map()[e] <= q,
            geo.wf(),
            geo.size() == n,
            out@ == all_walks(*geo, pieces),
            triangulates(pieces, tri_sets, out@),
        decreases starts.len() - q,
    {
        let (a, b) = starts[q];
        let ghost used = selector.used_map();
        proof {
            lemma_select_walks_closed_path(*geo, used, n, diag@, a, b);
            assert(starts@.skip(q as int)[0] == (a, b));
            assert(starts@.skip(q as int).drop_first() =~= starts@.skip(q + 1));
        }
        match selector.select((a, b), geo, n, diag) {
            Ok(piece) => {
                let ghost before = out@;
                assert(on_tables(piece@, *geo)) by {
                    lemma_select_closed(*geo, used, n, diag@, a, b);
                    assert(select_outcome(*geo, used, n, diag@, a, b).1 == Ok::<Seq<usize>, SelectError>(piece@));
                    assert(closed_walk(n, diag@, a, b, piece@));
                    assert forall|i: int| 0 <= i < piece@.len() implies #[trigger] piece@[i] < geo.size() by {
                        assert(piece@[i] < n);
                    }
                }
                triangulate_piece(geo, &piece, &mut out);
                proof {
                    let tris = choose|tris: Seq<(usize, usize, usize)>| {
                        &&& tris.len() == piece.len() - 2
                        &&& all_proper(tris, piece.len() as nat)
                        &&& out@ == before + emitted(piece@, tris)
                    };
                    let pieces2 = pieces.push(piece@);
                    let tri_sets2 = tri_sets.push(tris);
                    assert(pieces2.drop_last() =~= pieces);
                    assert(out@ == all_walks(*geo, pieces2));
                    assert(tri_sets2.drop_last() =~= tri_sets);
                    assert forall|x: int| 0 <= x < pieces2.len() implies {
                        &&& #[trigger] tri_sets2[x].len() == pieces2[x].len() - 2
                        &&& all_proper(tri_sets2[x], pieces2[x].len())
                    } by {
                        if x < pieces.len() {
                            assert(tri_sets2[x] == tri_sets[x] && pieces2[x] == pieces[x]);
                        }
                    }
                    assert(all =~= pieces2 + selected_pieces(*geo, selector.used_map(), n, diag@, starts@.skip(q + 1)));
                    pieces = pieces2;
                    tri_sets = tri_sets2;
                }
            },
            Err(_) => {},
        }
        q += 1;
    }
    assert(starts@.skip(q as int) =~= Seq::<(usize, usize)>::empty());
    assert(all =~= pieces);
    out
}

/// Why a polygon could not be triangulated.
#[derive(Debug, Clone, Copy, PartialEq, Eq, Structural)]
pub enum TriangulateError {
    /// The polygon has two vertices or fewer.
    NotEnoughPoints,
}

/// The start edges the pieces are looked for from: each entry of each list
/// of recorded diagonals once, list by list in the order the map is walked
/// (see [`diagonal_starts`]), or
/// the edge from vertex 0 to vertex 1 when no diagonal was recorded.
pub open spec fn start_edges(diag: Map<usize, Vec<usize>>, starts: Seq<(usize, usize)>) -> bool {
    if diag.dom().is_empty() {
        starts == seq![(0usize, 1usize)]
    } else {
        &&& forall|q: int| 0 <= q < starts.len() ==> {
            &&& diag.contains_key(#[trigger] starts[q].0)
            &&& diag[starts[q].0]@.contains(starts[q].1)
        }
        &&& forall|v: usize, w: usize| diag.contains_key(v) && #[trigger] diag[v]@.contains(w) ==> starts.contains((v, w))
        &&& each_list_once(diag, starts)
    }
}

/// The diagonals [`triangulate_2d`] works with: those of the sweep, or none
/// when the sweep failed.
pub open spec fn used_diagonals(
    kinds: Seq<VertexKind>,
    keys: Seq<i64>,
    left_of: Seq<Vec<bool>>,
    order: Seq<usize>,
    diag: Map<usize, Vec<usize>>,
) -> bool {
    match monotone_diagonals(kinds, keys, left_of, order) {
        Ok(d) => lists_of(diag) == d,
        Err(_) => diag.dom().is_empty(),
    }
}

/// `out` is what [`triangulate_2d`] gives: the diagonals `diag` are those it
/// works with, `starts` lists its start edges, and `out` holds the
/// triangles `tri_sets` of the pieces found from them.
pub open spec fn triangulation_of(
    geo: PlaneTables,
    kinds: Seq<VertexKind>,
    keys: Seq<i64>,
    left_of: Seq<Vec<bool>>,
    order: Seq<usize>,
    diag: Map<usize, Vec<usize>>,
    starts: Seq<(usize, usize)>,
    tri_sets: Seq<Seq<(usize, usize, usize)>>,
    out: Seq<u32>,
) -> bool {
    &&& used_diagonals(kinds, keys, left_of, order, diag)
    &&& start_edges(diag, starts)
    &&& triangulates(selected_pieces(geo, Map::empty(), kinds.len() as usize, diag, starts), tri_sets, out)
    &&& out == all_walks(geo, selected_pieces(geo, Map::empty(), kinds.len() as usize, diag, starts))
}

/// `out` is what [`triangulate_2d`] gives for some diagonals it may work
/// with and some listing of their ends (see [`triangulation_of`]).
pub open spec fn triangulated(
    geo: PlaneTables,
    kinds: Seq<VertexKind>,
    keys: Seq<i64>,
    left_of: Seq<Vec<bool>>,
    order: Seq<usize>,
    out: Seq<u32>,
) -> bool {
    exists|diag: Map<usize, Vec<usize>>, starts: Seq<(usize, usize)>, tri_sets: Seq<Seq<(usize, usize, usize)>>|
        #[trigger] triangulation_of(geo, kinds, keys, left_of, order, diag, starts, tri_sets, out)
}

/// Triangulates a polygon of `kinds.len()` vertices: the sweep (see
/// [`to_monotonic_addings`]) cuts it into pieces monotone in y, each
/// diagonal gives the start edges of the pieces beside it, and each piece
/// found is triangulated.  When the sweep fails the polygon is taken as one
/// piece, starting at the edge from vertex 0 to vertex 1.  Fails only on a
/// polygon of two vertices or fewer.
pub fn triangulate_2d(
    geo: &PlaneTables,
    order: &Vec<usize>,
    kinds: &Vec<VertexKind>,
    keys: &Vec<i64>,
    left_of: &Vec<Vec<bool>>,
) -> (res: Result<Vec<u32>, TriangulateError>)
    requires
        keys.len() == kinds.len(),
        left_of.len() == kinds.len(),
        forall|j: int| 0 <= j < left_of.len() ==> #[trigger] left_of[j].len() == kinds.len(),
        forall|j: int| 0 <= j < order.len() ==> #[trigger] order[j] < kinds.len(),
        geo.wf(),
        geo.size() == kinds.len(),
    ensures
        res is Err <==> kinds.len() <= 2,
        res is Err ==> res == Err::<Vec<u32>, TriangulateError>(TriangulateError::NotEnoughPoints),
        res matches Ok(out) ==> triangulated(*geo, kinds@, keys@, left_of@, order@, out@),
        res matches Ok(out) ==> (kinds.len() <= 0x1_0000_0000 ==> indices_below(out@, kinds.len() as int)),
{
    let n = kinds.len();
    if n <= 2 {
        return Err(TriangulateError::NotEnoughPoints);
    }
    let swept = to_monotonic_addings(order, kinds, keys, left_of);
    let diag = match swept {
        Ok(d) => d,
        Err(_) => HashMap::new(),
    };
    proof {
        if swept is Err {
            assert(diag@.dom() =~= Set::<usize>::empty());
            assert(lists_of(diag@) =~= Map::<usize, Seq<usize>>::empty());
        }
        assert(used_diagonals(kinds@, keys@, left_of@, order@, diag@));
        assert(lists_within(lists_of(diag@), n));
        assert(segments_within(diag@, n));
    }
    let starts = if diag.len() > 0 {
        diagonal_starts(&diag)
    } else {
        let mut s: Vec<(usize, usize)> = Vec::new();
        s.push((0, 1));
        s
    };
    proof {
        vstd::set_lib::axiom_is_empty_len0(diag@.dom());
        if diag@.dom().is_empty() {
            assert(starts@ =~= seq![(0usize, 1usize)]);
        }
        assert(start_edges(diag@, starts@));
        assert forall|q: int| 0 <= q < starts.len() implies #[trigger] starts[q].0 < n && starts[q].1 < n by {
            if !diag@.dom().is_empty() {
                let v = starts[q].0;
                let w = starts[q].1;
                assert(lists_of(diag@).contains_key(v));
                let x = choose|x: int| 0 <= x < diag@[v]@.len() && diag@[v]@[x] == w;
                assert(diag@[v]@[x] < n);
            }
        }
    }
    let out = triangulate_pieces(geo, n, &diag, &starts);
    proof {
        let tri_sets = choose|tri_sets: Seq<Seq<(usize, usize, usize)>>|
            triangulates(selected_pieces(*geo, Map::empty(), n, diag@, starts@), tri_sets, out@);
        assert(triangulation_of(*geo, kinds@, keys@, left_of@, order@, diag@, starts@, tri_sets, out@));
        assert(triangulated(*geo, kinds@, keys@, left_of@, order@, out@));
        if kinds.len() <= 0x1_0000_0000 {
            lemma_triangulation_indices_valid(*geo, kinds@, keys@, left_of@, order@, out@);
        }
    }
    Ok(out)
}

/// `p` has at least three vertices, each one of the `n` vertices of the
/// polygon.
pub open spec fn piece_within(p: Seq<usize>, n: usize) -> bool {
    &&& p.len() >= 3
    &&& forall|i: int| 0 <= i < p.len() ==> #[trigger] p[i] < n
}

/// The pieces found from start edges of the polygon lie on its vertices.
#[verifier::spinoff_prover]
proof fn lemma_selected_pieces_within(
    geo: PlaneTables,
    used: Map<(usize, usize), usize>,
    n: usize,
    extra: Map<usize, Vec<usize>>,
    starts: Seq<(usize, usize)>,
)
    requires
        segments_within(extra, n),
        forall|q: int| 0 <= q < starts.len() ==> #[trigger] starts[q].0 < n && starts[q].1 < n,
    ensures
        forall|q: int| 0 <= q < selected_pieces(geo, used, n, extra, starts).len()
            ==> piece_within(#[trigger] selected_pieces(geo, used, n, extra, starts)[q], n),
    decreases starts.len(),
{
    if starts.len() > 0 {
        let (after, out) = select_outcome(geo, used, n, extra, starts[0].0, starts[0].1);
        lemma_select_closed(geo, used, n, extra, starts[0].0, starts[0].1);
        let rest = starts.drop_first();
        assert forall|q: int| 0 <= q < rest.len() implies #[trigger] rest[q].0 < n && rest[q].1 < n by {
            assert(rest[q] == starts[q + 1]);
        }
        lemma_selected_pieces_within(geo, after, n, extra, rest);
        let all = selected_pieces(geo, used, n, extra, starts);
        let tail = selected_pieces(geo, after, n, extra, rest);
        match out {
            Ok(p) => {
                assert forall|q: int| 0 <= q < all.len() implies piece_within(#[trigger] all[q], n) by {
                    if q > 0 {
                        assert(all[q] == tail[q - 1]);
                    }
                }
            },
            Err(_) => {},
        }
    }
}

/// The triangles of a piece on vertices of the polygon name vertices of the
/// polygon, as long as their indices fit in `u32`.
proof fn lemma_emitted_within(piece: Seq<usize>, tris: Seq<(usize, usize, usize)>, n: usize)
    requires
        forall|i: int| 0 <= i < piece.len() ==> #[trigger] piece[i] < n,
        n <= 0x1_0000_0000,
        all_proper(tris, piece.len()),
    ensures
        indices_below(emitted(piece, tris), n as int),
    decreases tris.len(),
{
    if tris.len() > 0 {
        let init = tris.drop_last();
        assert forall|q: int| 0 <= q < init.len() implies proper_triangle(#[trigger] init[q], piece.len()) by {
            assert(init[q] == tris[q]);
        }
        lemma_emitted_within(piece, init, n);
        let t = tris.last();
        assert(proper_triangle(tris[tris.len() - 1], piece.len()));
        let e = emitted(piece, tris);
        let head = emitted(piece, init);
        assert forall|j: int| 0 <= j < e.len() implies #[trigger] e[j] < n by {
            if j < head.len() {
                assert(e[j] == head[j]);
            } else {
                let x = j - head.len();
                assert(e[j] == triangle_indices(piece, t)[x]);
                assert(piece[t.0 as int] < n && piece[t.1 as int] < n && piece[t.2 as int] < n);
            }
        }
    }
}

/// The triangles of pieces on vertices of the polygon name vertices of the
/// polygon, as long as their indices fit in `u32`.
proof fn lemma_all_emitted_within(pieces: Seq<Seq<usize>>, tri_sets: Seq<Seq<(usize, usize, usize)>>, n: usize)
    requires
        n <= 0x1_0000_0000,
        tri_sets.len() == pieces.len(),
        forall|q: int| 0 <= q < pieces.len() ==> piece_within(#[trigger] pieces[q], n),
        forall|q: int| 0 <= q < pieces.len() ==> all_proper(#[trigger] tri_sets[q], pieces[q].len()),
    ensures
        indices_below(all_emitted(pieces, tri_sets), n as int),
    decreases pieces.len(),
{
    if pieces.len() > 0 {
        let pi = pieces.drop_last();
        let ti = tri_sets.drop_last();
        assert forall|q: int| 0 <= q < pi.len() implies piece_within(#[trigger] pi[q], n) by {
            assert(pi[q] == pieces[q]);
        }
        assert forall|q: int| 0 <= q < pi.len() implies all_proper(#[trigger] ti[q], pi[q].len()) by {
            assert(ti[q] == tri_sets[q] && pi[q] == pieces[q]);
        }
        lemma_all_emitted_within(pi, ti, n);
        let last = pieces.len() - 1;
        assert(piece_within(pieces[last], n));
        assert(all_proper(tri_sets[last], pieces[last].len()));
        lemma_emitted_within(pieces.last(), tri_sets.last(), n);
        let a = all_emitted(pieces, tri_sets);
        let head = all_emitted(pi, ti);
        let tail = emitted(pieces.last(), tri_sets.last());
        assert forall|j: int| 0 <= j < a.len() implies #[trigger] a[j] < n by {
            if j < head.len() {
                assert(a[j] == head[j]);
            } else {
                assert(a[j] == tail[j - head.len()]);
            }
        }
    }
}

/// Every index [`triangulate_2d`] gives names a vertex of the polygon, as
/// long as the polygon's vertices can be numbered in `u32`.
pub proof fn lemma_triangulation_indices_valid(
    geo: PlaneTables,
    kinds: Seq<VertexKind>,
    keys: Seq<i64>,
    left_of: Seq<Vec<bool>>,
    order: Seq<usize>,
    out: Seq<u32>,
)
    requires
        3 <= kinds.len() <= 0x1_0000_0000,
        kinds.len() <= usize::MAX,
        forall|j: int| 0 <= j < order.len() ==> #[trigger] order[j] < kinds.len(),
        triangulated(geo, kinds, keys, left_of, order, out),
    ensures
        indices_below(out, kinds.len() as int),
{
    let n = kinds.len() as usize;
    let (diag, starts, tri_sets) = choose|diag: Map<usize, Vec<usize>>, starts: Seq<(usize, usize)>, tri_sets: Seq<Seq<(usize, usize, usize)>>|
        #[trigger] triangulation_of(geo, kinds, keys, left_of, order, diag, starts, tri_sets, out);
    lemma_monotone_diagonals_symmetric(kinds, keys, left_of, order);
    assert(lists_within(lists_of(diag), n)) by {
        if monotone_diagonals(kinds, keys, left_of, order) is Err {
            assert(lists_of(diag) =~= Map::<usize, Seq<usize>>::empty());
        }
    }
    assert(segments_within(diag, n)) by {
        assert forall|v: usize, i: int| diag.contains_key(v) && 0 <= i < diag[v]@.len() implies #[trigger] diag[v]@[i] < n by {
            assert(list_at(lists_of(diag), v) == diag[v]@);
        }
    }
    assert forall|q: int| 0 <= q < starts.len() implies #[trigger] starts[q].0 < n && starts[q].1 < n by {
        if !diag.dom().is_empty() {
            let v = starts[q].0;
            let w = starts[q].1;
            assert(lists_of(diag).contains_key(v));
            let x = choose|x: int| 0 <= x < diag[v]@.len() && diag[v]@[x] == w;
            assert(list_at(lists_of(diag), v) == diag[v]@);
            assert(list_at(lists_of(diag), v)[x] < n);
        } else {
            assert(starts == seq![(0usize, 1usize)]);
            assert(starts[q] == (0usize, 1usize));
        }
    }
    let pieces = selected_pieces(geo, Map::empty(), n, diag, starts);
    lemma_selected_pieces_within(geo, Map::empty(), n, diag, starts);
    assert forall|q: int| 0 <= q < pieces.len() implies all_proper(#[trigger] tri_sets[q], pieces[q].len()) by {
        assert(tri_sets[q].len() == pieces[q].len() - 2);
    }
    lemma_all_emitted_within(pieces, tri_sets, n);
}

} // verus!
