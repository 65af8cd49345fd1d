use std::collections::{HashMap, HashSet};
use vstd::prelude::*;
use crate::geometry::triangulation::{PlaneTables, CoordOrder};

verus! {

broadcast use {vstd::std_specs::hash::group_hash_axioms, vstd::set_lib::group_set_lib_default};

/// Why [`PolygonSelector::select`] found no new sub-polygon.
#[derive(Debug, Clone, Copy, PartialEq, Eq, Structural)]
pub enum SelectError {
    /// The start edge has already been walked.
    Exhausted,
    /// No edge leaves the second vertex of the start edge.
    NoFirstSegment,
    /// The walk came back to a vertex it had already visited.
    PathRepeated,
    /// No open edge leaves this vertex for a vertex not yet visited.
    NoNextSegment(usize),
}

/// Key of the ordered pair `(from, to)` in the table of used edges.
pub open spec fn pair_key_spec(from: usize, to: usize) -> u128 {
    (from as int * 0x1_0000_0000_0000_0000 + to as int) as u128
}

#[verifier::when_used_as_spec(pair_key_spec)]
fn pair_key(from: usize, to: usize) -> (k: u128)
    ensures
        k == pair_key_spec(from, to),
{
    assert(usize::MAX <= u64::MAX);
    (from as u128) * 0x1_0000_0000_0000_0000u128 + (to as u128)
}

proof fn lemma_pair_key_injective(a: usize, b: usize, c: usize, d: usize)
    requires
        pair_key_spec(a, b) == pair_key_spec(c, d),
    ensures
        a == c && b == d,
{
    assert(usize::MAX <= u64::MAX);
    assert(a as int * 0x1_0000_0000_0000_0000 + b as int == c as int * 0x1_0000_0000_0000_0000 + d as int);
}

/// The vertex after `v` on a polygon of `n` vertices.
pub open spec fn succ(n: usize, v: usize) -> usize {
    if v + 1 == n { 0 } else { (v + 1) as usize }
}

/// The vertex before `v` on a polygon of `n` vertices.
pub open spec fn pred(n: usize, v: usize) -> usize {
    if v == 0 { (n - 1) as usize } else { (v - 1) as usize }
}

/// The extra segments (diagonals) that leave `v`.
pub open spec fn extra_list(extra: Map<usize, Vec<usize>>, v: usize) -> Seq<usize> {
    if extra.contains_key(v) { extra[v]@ } else { Seq::empty() }
}

/// Every extra segment leads to a vertex of the polygon.
pub open spec fn segments_within(extra: Map<usize, Vec<usize>>, n: usize) -> bool {
    forall|v: usize, i: int| extra.contains_key(v) && 0 <= i < extra[v]@.len() ==> #[trigger] extra[v]@[i] < n
}

/// The vertices the walk may go to from `cur`, in the order it looks at
/// them: the next and the previous vertex of the polygon, then the ends of
/// the extra segments that leave `cur`.
pub open spec fn candidates(n: usize, extra: Map<usize, Vec<usize>>, cur: usize) -> Seq<usize> {
    seq![succ(n, cur), pred(n, cur)] + extra_list(extra, cur)
}

/// Whether the directed edge `cur -> x` may still be walked: it has not been
/// walked yet (each directed edge borders one sub-polygon, on its right).
pub open spec fn edge_open(used: Map<(usize, usize), usize>, cur: usize, x: usize) -> bool {
    !used.contains_key((cur, x)) || used[(cur, x)] < 1
}

/// Seen from `cur`, arriving from `last`, the direction to `a` comes before
/// the direction to `b` when turning counter-clockwise from the direction
/// back to `last`: directions strictly within the first half turn come
/// first, and within one half the cross product orders them.
pub open spec fn turns_before(geo: PlaneTables, last: usize, cur: usize, a: usize, b: usize) -> bool {
    let ha = geo.cross@[last as int]@[cur as int]@[a as int] == CoordOrder::Greater;
    let hb = geo.cross@[last as int]@[cur as int]@[b as int] == CoordOrder::Greater;
    if ha != hb { ha } else { geo.cross@[a as int]@[cur as int]@[b as int] == CoordOrder::Greater }
}

/// Among the vertices of `c` that are not yet visited and whose edge from
/// `cur` is open, the first one turning counter-clockwise from the
/// direction back to `last` (see [`turns_before`]); of two that neither
/// comes before the other, the earlier in `c`.
pub open spec fn best_open(
    geo: PlaneTables,
    c: Seq<usize>,
    used: Map<(usize, usize), usize>,
    visited: Set<usize>,
    last: usize,
    cur: usize,
) -> Option<usize>
    decreases c.len(),
{
    if c.len() == 0 {
        None
    } else {
        let rest = best_open(geo, c.drop_last(), used, visited, last, cur);
        let x = c.last();
        if !visited.contains(x) && edge_open(used, cur, x) {
            match rest {
                None => Some(x),
                Some(y) => if turns_before(geo, last, cur, x, y) { Some(x) } else { Some(y) },
            }
        } else {
            rest
        }
    }
}

/// The vertex the walk goes to from `cur`, arriving from `last`, if any:
/// the sub-polygon on the right of the walk is followed.
pub open spec fn step(
    geo: PlaneTables,
    n: usize,
    extra: Map<usize, Vec<usize>>,
    used: Map<(usize, usize), usize>,
    visited: Set<usize>,
    last: usize,
    cur: usize,
) -> Option<usize> {
    best_open(geo, candidates(n, extra, cur), used, visited, last, cur)
}

/// The walk from `cur`, `path` being the vertices visited before it: it
/// ends when the step from `cur` goes back to the start vertex `s0`.  A
/// walk never holds more than `n + 1` vertices (the first two may
/// coincide); the length test only bounds the recursion.
pub open spec fn walk(
    geo: PlaneTables,
    n: usize,
    extra: Map<usize, Vec<usize>>,
    used: Map<(usize, usize), usize>,
    s0: usize,
    path: Seq<usize>,
    cur: usize,
) -> Result<Seq<usize>, SelectError>
    decreases n + 2 - path.len(),
{
    if path.len() >= n + 2 || path.contains(cur) {
        Err(SelectError::PathRepeated)
    } else {
        match step(geo, n, extra, used, path.to_set().remove(s0), path.last(), cur) {
            None => Err(SelectError::NoNextSegment(cur)),
            Some(nx) => if nx == s0 {
                Ok(path.push(cur))
            } else {
                walk(geo, n, extra, used, s0, path.push(cur), nx)
            },
        }
    }
}

/// The used-edge table with the count of `(a, b)` raised by one.
pub open spec fn bump(used: Map<(usize, usize), usize>, a: usize, b: usize) -> Map<(usize, usize), usize> {
    used.insert((a, b), ((if used.contains_key((a, b)) { used[(a, b)] as int } else { 0 }) + 1) as usize)
}

/// The `i`-th edge of the closed path `p`.
pub open spec fn cycle_edge(p: Seq<usize>, i: int) -> (usize, usize) {
    (p[i], p[(i + 1) % (p.len() as int)])
}

/// The used-edge table after the first `i` edges of the closed path `p`
/// were counted.
pub open spec fn bumped(used: Map<(usize, usize), usize>, p: Seq<usize>, i: nat) -> Map<(usize, usize), usize>
    decreases i,
{
    if i == 0 {
        used
    } else {
        let e = cycle_edge(p, i - 1);
        bump(bumped(used, p, (i - 1) as nat), e.0, e.1)
    }
}

/// The table with the start edge entered (count zero) if it was missing.
pub open spec fn with_start(used: Map<(usize, usize), usize>, s0: usize, s1: usize) -> Map<(usize, usize), usize> {
    if used.contains_key((s0, s1)) { used } else { used.insert((s0, s1), 0) }
}

/// What [`PolygonSelector::select`] leaves in the used-edge table and
/// returns, given the table before the call.
pub open spec fn select_outcome(
    geo: PlaneTables,
    used: Map<(usize, usize), usize>,
    n: usize,
    extra: Map<usize, Vec<usize>>,
    s0: usize,
    s1: usize,
) -> (Map<(usize, usize), usize>, Result<Seq<usize>, SelectError>) {
    let used1 = with_start(used, s0, s1);
    if used1[(s0, s1)] >= 1 {
        (used1, Err(SelectError::Exhausted))
    } else {
        match step(geo, n, extra, used1, set![s0], s0, s1) {
            None => (used1, Err(SelectError::NoFirstSegment)),
            Some(nx) => match walk(geo, n, extra, used1, s0, seq![s0, s1], nx) {
                Err(e) => (used1, Err(e)),
                Ok(p) => (bumped(used1, p, p.len()), Ok(p)),
            },
        }
    }
}


fn turns_before_exec(geo: &PlaneTables, last: usize, cur: usize, a: usize, b: usize) -> (r: bool)
    requires
        geo.wf(),
        last < geo.size(),
        cur < geo.size(),
        a < geo.size(),
        b < geo.size(),
    ensures
        r == turns_before(*geo, last, cur, a, b),
{
    let ha = geo.cross[last][cur][a] == CoordOrder::Greater;
    let hb = geo.cross[last][cur][b] == CoordOrder::Greater;
    if ha != hb { ha } else { geo.cross[a][cur][b] == CoordOrder::Greater }
}

/// Every vertex the walk may go to from `cur` is a vertex of the polygon.
proof fn lemma_candidates_below(n: usize, extra: Map<usize, Vec<usize>>, cur: usize)
    requires
        cur < n,
        segments_within(extra, n),
    ensures
        forall|k: int| 0 <= k < candidates(n, extra, cur).len() ==> #[trigger] candidates(n, extra, cur)[k] < n,
{
    assert forall|k: int| 0 <= k < candidates(n, extra, cur).len() implies #[trigger] candidates(n, extra, cur)[k] < n by {
        if k >= 2 {
            assert(extra.contains_key(cur));
            assert(candidates(n, extra, cur)[k] == extra[cur]@[k - 2]);
        }
    }
}

fn candidates_vec(n: usize, extra: &HashMap<usize, Vec<usize>>, cur: usize) -> (c: Vec<usize>)
    requires
        cur < n,
    ensures
        c@ == candidates(n, extra@, cur),
{
    let mut c: Vec<usize> = Vec::new();
    c.push(if cur + 1 == n { 0 } else { cur + 1 });
    c.push(if cur == 0 { n - 1 } else { cur - 1 });
    match extra.get(&cur) {
        Some(l) => {
            let ghost head = c@;
            let mut i: usize = 0;
            while i < l.len()
                invariant
                    i <= l.len(),
                    c@ == head + l@.take(i as int),
                decreases l.len() - i,
            {
                c.push(l[i]);
                i += 1;
                assert(head + l@.take(i as int) =~= (head + l@.take((i - 1) as int)).push(l@[i - 1]));
            }
            assert(l@.take(l.len() as int) =~= l@);
        },
        None => {
            assert(c@ =~= candidates(n, extra@, cur));
        },
    }
    c
}

/// A finite set of vertices of a polygon of `n` vertices has at most `n`
/// elements.
proof fn lemma_bounded_set_len(s: Set<usize>, n: usize)
    requires
        s.finite(),
        forall|x: usize| #[trigger] s.contains(x) ==> x < n,
    ensures
        s.len() <= n,
    decreases n,
{
    if n == 0 {
        assert(s =~= Set::empty());
    } else {
        let m = (n - 1) as usize;
        lemma_bounded_set_len(s.remove(m), m);
    }
}

/// Counting the edges of a closed path leaves every other edge's count as
/// it was.
proof fn lemma_bumped_elsewhere(used: Map<(usize, usize), usize>, p: Seq<usize>, i: nat, k: (usize, usize))
    requires
        forall|j: int| 0 <= j < i ==> cycle_edge(p, j) != k,
    ensures
        bumped(used, p, i).contains_key(k) == used.contains_key(k),
        used.contains_key(k) ==> bumped(used, p, i)[k] == used[k],
    decreases i,
{
    if i > 0 {
        lemma_bumped_elsewhere(used, p, (i - 1) as nat, k);
    }
}

/// The edges of a closed path whose vertices, after the first two, each
/// differ from all vertices before them, are pairwise different.
proof fn lemma_cycle_edges_distinct(p: Seq<usize>, i: int, j: int)
    requires
        p.len() >= 3,
        forall|k: int| 2 <= k < p.len() ==> !#[trigger] p.take(k).contains(p[k]),
        0 <= i < j < p.len(),
    ensures
        cycle_edge(p, i) != cycle_edge(p, j),
{
    let m = p.len() as int;
    vstd::arithmetic::div_mod::lemma_small_mod((i + 1) as nat, m as nat);
    if j >= 2 {
        assert(p.take(j)[i] == p[i]);
        assert(p.take(j).contains(p[i]));
    } else {
        vstd::arithmetic::div_mod::lemma_small_mod((j + 1) as nat, m as nat);
        assert(p.take(2)[1] == p[1]);
        assert(p.take(2).contains(p[1]));
    }
}

/// No count in the table is at the top of its range.
pub open spec fn counts_below_max(used: Map<(usize, usize), usize>) -> bool {
    forall|p: (usize, usize)| #[trigger] used.contains_key(p) ==> used[p] < usize::MAX
}

/// Walks the sub-polygons that the extra segments (diagonals) cut out of a
/// polygon, and counts how often each directed edge has been walked.
#[derive(Debug)]
pub struct PolygonSelector {
    used: HashMap<u128, usize>,
}

impl Clone for PolygonSelector {
    /// A selector with the same counts.
    fn clone(&self) -> (res: PolygonSelector)
        ensures
            res.used_map() == self.used_map(),
    {
        let res = PolygonSelector { used: self.used.clone() };
        assert(res.used_map() =~= self.used_map());
        res
    }
}

impl Default for PolygonSelector {
    /// A selector that has walked no edge yet.
    fn default() -> (res: PolygonSelector)
        ensures
            res.used_map() == Map::<(usize, usize), usize>::empty(),
    {
        PolygonSelector::new()
    }
}

impl PolygonSelector {
    /// How often each directed edge `(from, to)` has been walked.
    pub closed spec fn used_map(&self) -> Map<(usize, usize), usize> {
        Map::new(
            |p: (usize, usize)| self.used@.contains_key(pair_key_spec(p.0, p.1)),
            |p: (usize, usize)| self.used@[pair_key_spec(p.0, p.1)],
        )
    }

    /// No count is at the top of its range.
    pub open spec fn counts_fit(&self) -> bool {
        counts_below_max(self.used_map())
    }

    pub fn new() -> (res: PolygonSelector)
        ensures
            res.used_map() == Map::<(usize, usize), usize>::empty(),
    {
        let res = PolygonSelector { used: HashMap::new() };
        assert(res.used_map() =~= Map::<(usize, usize), usize>::empty());
        res
    }

    /// How often the directed edge `from -> to` has been walked.
    pub fn used_count(&self, from: usize, to: usize) -> (res: usize)
        ensures
            self.used_map().contains_key((from, to)) ==> res == self.used_map()[(from, to)],
            !self.used_map().contains_key((from, to)) ==> res == 0,
    {
        match self.used.get(&pair_key(from, to)) {
            Some(c) => *c,
            None => 0,
        }
    }

    fn get_count(&self, from: usize, to: usize) -> (res: Option<usize>)
        ensures
            res == (if self.used_map().contains_key((from, to)) { Some(self.used_map()[(from, to)]) } else { None::<usize> }),
    {
        match self.used.get(&pair_key(from, to)) {
            Some(c) => Some(*c),
            None => None,
        }
    }

    /// Sets how often the directed edge `from -> to` counts as walked.
    pub fn set_used_count(&mut self, from: usize, to: usize, c: usize)
        ensures
            final(self).used_map() == old(self).used_map().insert((from, to), c),
    {
        self.used.insert(pair_key(from, to), c);
        assert forall|p: (usize, usize)| #[trigger] final(self).used_map().contains_key(p)
            == old(self).used_map().insert((from, to), c).contains_key(p) by {
            if pair_key_spec(p.0, p.1) == pair_key_spec(from, to) {
                lemma_pair_key_injective(p.0, p.1, from, to);
            }
        }
        assert forall|p: (usize, usize)| #[trigger] final(self).used_map().contains_key(p)
            implies final(self).used_map()[p] == old(self).used_map().insert((from, to), c)[p] by {
            if pair_key_spec(p.0, p.1) == pair_key_spec(from, to) {
                lemma_pair_key_injective(p.0, p.1, from, to);
            }
        }
        assert(final(self).used_map() =~= old(self).used_map().insert((from, to), c));
    }

    fn edge_open_exec(&self, cur: usize, x: usize) -> (b: bool)
        ensures
            b == edge_open(self.used_map(), cur, x),
    {
        match self.get_count(cur, x) {
            None => true,
            Some(t) => t < 1,
        }
    }

    /// The step from `cur`, arriving from `last`; the vertices of `visited`
    /// are passed over, but for `except`.
    fn step_exec(
        &self,
        geo: &PlaneTables,
        n: usize,
        extra: &HashMap<usize, Vec<usize>>,
        visited: &HashSet<usize>,
        except: Option<usize>,
        last: usize,
        cur: usize,
    ) -> (r: Option<usize>)
        requires
            geo.wf(),
            geo.size() == n,
            cur < n,
            last < n,
            segments_within(extra@, n),
        ensures
            r == step(*geo, n, extra@, self.used_map(), (match except {
                None => visited@,
                Some(e) => visited@.remove(e),
            }), last, cur),
    {
        let ghost vis = match except {
            None => visited@,
            Some(e) => visited@.remove(e),
        };
        let c = candidates_vec(n, extra, cur);
        proof {
            lemma_candidates_below(n, extra@, cur);
        }
        let mut best: Option<usize> = None;
        let mut i: usize = 0;
        while i < c.len()
            invariant
                i <= c.len(),
                c@ == candidates(n, extra@, cur),
                forall|k: int| 0 <= k < c.len() ==> #[trigger] c@[k] < n,
                geo.wf(),
                geo.size() == n,
                cur < n,
                last < n,
                vis == (match except {
                    None => visited@,
                    Some(e) => visited@.remove(e),
                }),
                best == best_open(*geo, c@.take(i as int), self.used_map(), vis, last, cur),
                best matches Some(y) ==> y < n,
            decreases c.len() - i,
        {
            let x = c[i];
            assert(c@.take((i + 1) as int).drop_last() =~= c@.take(i as int));
            assert(c@.take((i + 1) as int).last() == x);
            let free = match except {
                None => !visited.contains(&x),
                Some(e) => x == e || !visited.contains(&x),
            };
            if free && self.edge_open_exec(cur, x) {
                match best {
                    None => {
                        best = Some(x);
                    },
                    Some(y) => {
                        if turns_before_exec(geo, last, cur, x, y) {
                            best = Some(x);
                        }
                    },
                }
            }
            i += 1;
        }
        assert(c@.take(c.len() as int) =~= c@);
        best
    }

    /// Walks one new sub-polygon, starting with the edge `start.0 ->
    /// start.1`, on a polygon of `n_points` vertices cut by the segments in
    /// `extra_segments`, keeping the sub-polygon on its right.  From each
    /// vertex the walk takes, among the open edges to the next vertex, the
    /// previous vertex and the ends of the extra segments, the one that
    /// turns first counter-clockwise from the edge it came along (see
    /// [`step`]), to a vertex it has not visited, and it ends when that
    /// edge leads back to `start.0`.  On success every edge of the closed
    /// path is counted once more; a start edge that was walked already
    /// gives nothing new.
    pub fn select(
        &mut self,
        start: (usize, usize),
        geo: &PlaneTables,
        n_points: usize,
        extra_segments: &HashMap<usize, Vec<usize>>,
    ) -> (res: Result<Vec<usize>, SelectError>)
        requires
            start.0 < n_points,
            start.1 < n_points,
            geo.wf(),
            geo.size() == n_points,
            segments_within(extra_segments@, n_points),
            old(self).counts_fit(),
        ensures
            ({
                let (used, out) = select_outcome(*geo, old(self).used_map(), n_points, extra_segments@, start.0, start.1);
                &&& final(self).used_map() == used
                &&& match res {
                    Ok(p) => out == Ok::<Seq<usize>, SelectError>(p@),
                    Err(e) => out == Err::<Seq<usize>, SelectError>(e),
                }
            }),
    {
        let n = n_points;
        let s0 = start.0;
        let s1 = start.1;
        let ghost extra = extra_segments@;
        if self.get_count(s0, s1).is_none() {
            self.set_used_count(s0, s1, 0);
        }
        let ghost used1 = self.used_map();
        assert(used1 == with_start(old(self).used_map(), s0, s1));
        let start_counter = match self.get_count(s0, s1) {
            Some(c) => c,
            None => 0,
        };
        if start_counter >= 1 {
            return Err(SelectError::Exhausted);
        }
        let mut vertexpath: Vec<usize> = Vec::new();
        vertexpath.push(s0);
        let mut vertex_set: HashSet<usize> = HashSet::new();
        vertex_set.insert(s0);
        assert(vertex_set@ =~= set![s0]);
        let mut cur = s1;
        let first = self.step_exec(geo, n, extra_segments, &vertex_set, None, s0, cur);
        let nx0 = match first {
            None => { return Err(SelectError::NoFirstSegment); },
            Some(nx) => nx,
        };
        proof {
            candidates_within(*geo, n, extra, cur, nx0, used1, set![s0], s0);
        }
        vertexpath.push(cur);
        vertex_set.insert(cur);
        cur = nx0;
        assert(vertexpath@ =~= seq![s0, s1]);
        let ghost whole = walk(*geo, n, extra, used1, s0, seq![s0, s1], nx0);
        assert(select_outcome(*geo, old(self).used_map(), n, extra, s0, s1) == (match whole {
            Err(e) => (used1, Err::<Seq<usize>, SelectError>(e)),
            Ok(p) => (bumped(used1, p, p.len()), Ok::<Seq<usize>, SelectError>(p)),
        }));
        loop
            invariant_except_break
                whole == walk(*geo, n, extra, used1, s0, vertexpath@, cur),
                cur < n,
            invariant
                n == n_points,
                geo.wf(),
                geo.size() == n,
                extra == extra_segments@,
                s0 == start.0,
                s1 == start.1,
                select_outcome(*geo, old(self).used_map(), n, extra, s0, s1) == (match whole {
                    Err(e) => (used1, Err::<Seq<usize>, SelectError>(e)),
                    Ok(p) => (bumped(used1, p, p.len()), Ok::<Seq<usize>, SelectError>(p)),
                }),
                segments_within(extra, n),
                self.used_map() == used1,
                used1 == with_start(old(self).used_map(), s0, s1),
                old(self).counts_fit(),
                vertexpath@.len() >= 2,
                vertexpath@[0] == s0,
                vertexpath@[1] == s1,
                forall|k: int| 0 <= k < vertexpath@.len() ==> #[trigger] vertexpath@[k] < n,
                forall|k: int| 2 <= k < vertexpath@.len() ==> !#[trigger] vertexpath@.take(k).contains(vertexpath@[k]),
                vertex_set@ == vertexpath@.to_set(),
                vertexpath@.len() <= vertex_set@.len() + 1,
            ensures
                whole == Ok::<Seq<usize>, SelectError>(vertexpath@),
                vertexpath@.len() >= 3,
            decreases n + 2 - vertexpath@.len(),
        {
            if vertex_set.contains(&cur) {
                assert(vertexpath@.to_set().contains(cur));
                assert(vertexpath@.contains(cur));
                assert(whole == Err::<Seq<usize>, SelectError>(SelectError::PathRepeated));
                return Err(SelectError::PathRepeated);
            }
            assert(!vertexpath@.contains(cur)) by {
                if vertexpath@.contains(cur) {
                    assert(vertexpath@.to_set().contains(cur));
                }
            }
            proof {
                assert forall|x: usize| #[trigger] vertex_set@.insert(cur).contains(x) implies x < n by {
                    if x != cur {
                        assert(vertexpath@.contains(x));
                    }
                }
                lemma_bounded_set_len(vertex_set@.insert(cur), n);
            }
            let last = vertexpath[vertexpath.len() - 1];
            assert(last == vertexpath@.last());
            let next = self.step_exec(geo, n, extra_segments, &vertex_set, Some(s0), last, cur);
            let ghost old_path = vertexpath@;
            match next {
                None => {
                    assert(whole == Err::<Seq<usize>, SelectError>(SelectError::NoNextSegment(cur)));
                    return Err(SelectError::NoNextSegment(cur));
                },
                Some(nx) => {
                    proof {
                        candidates_within(*geo, n, extra, cur, nx, used1, vertex_set@.remove(s0), last);
                        lemma_push_keeps_fresh(vertexpath@, cur);
                    }
                    vertexpath.push(cur);
                    vertex_set.insert(cur);
                    assert(vertexpath@.take(old_path.len() as int) =~= old_path);
                    assert(vertex_set@ =~= vertexpath@.to_set());
                    assert(vertexpath@ == old_path.push(cur));
                    if nx == s0 {
                        break;
                    }
                    cur = nx;
                },
            }
        }
        let ghost p = vertexpath@;
        assert(whole == Ok::<Seq<usize>, SelectError>(p));
        let m = vertexpath.len();
        let mut i: usize = 0;
        while i < m
            invariant
                m == vertexpath.len(),
                p == vertexpath@,
                m >= 3,
                forall|k: int| 2 <= k < p.len() ==> !#[trigger] p.take(k).contains(p[k]),
                i <= m,
                self.used_map() == bumped(used1, p, i as nat),
                used1 == with_start(old(self).used_map(), s0, s1),
                old(self).counts_fit(),
                select_outcome(*geo, old(self).used_map(), n_points, extra_segments@, start.0, start.1)
                    == (bumped(used1, p, p.len()), Ok::<Seq<usize>, SelectError>(p)),
            decreases m - i,
        {
            let ii = (i + 1) % m;
            let a = vertexpath[i];
            let b = vertexpath[ii];
            proof {
                assert forall|j: int| 0 <= j < i implies cycle_edge(p, j) != (a, b) by {
                    lemma_cycle_edges_distinct(p, j, i as int);
                }
                lemma_bumped_elsewhere(used1, p, i as nat, (a, b));
            }
            let c = match self.get_count(a, b) {
                Some(c) => c,
                None => 0,
            };
            self.set_used_count(a, b, c + 1);
            i += 1;
        }
        Ok(vertexpath)
    }
}

/// The vertex a step goes to is a vertex of the polygon.
proof fn candidates_within(
    geo: PlaneTables,
    n: usize,
    extra: Map<usize, Vec<usize>>,
    cur: usize,
    nx: usize,
    used: Map<(usize, usize), usize>,
    visited: Set<usize>,
    last: usize,
)
    requires
        cur < n,
        segments_within(extra, n),
        step(geo, n, extra, used, visited, last, cur) == Some(nx),
    ensures
        nx < n,
        !visited.contains(nx),
        candidates(n, extra, cur).contains(nx),
{
    lemma_best_open_member(geo, candidates(n, extra, cur), used, visited, last, cur);
    let c = candidates(n, extra, cur);
    let k = choose|k: int| 0 <= k < c.len() && c[k] == nx;
    if k >= 2 {
        assert(extra.contains_key(cur));
        assert(extra[cur]@[k - 2] == nx);
    }
}

/// What [`best_open`] picks is an unvisited member of the list with an
/// open edge.
proof fn lemma_best_open_member(
    geo: PlaneTables,
    c: Seq<usize>,
    used: Map<(usize, usize), usize>,
    visited: Set<usize>,
    last: usize,
    cur: usize,
)
    ensures
        best_open(geo, c, used, visited, last, cur) matches Some(x) ==> c.contains(x) && !visited.contains(x)
            && edge_open(used, cur, x),
    decreases c.len(),
{
    if c.len() > 0 {
        lemma_best_open_member(geo, c.drop_last(), used, visited, last, cur);
        if let Some(x) = best_open(geo, c.drop_last(), used, visited, last, cur) {
            let k = choose|k: int| 0 <= k < c.drop_last().len() && c.drop_last()[k] == x;
            assert(c[k] == x);
        }
        assert(c[c.len() - 1] == c.last());
    }
}

proof fn lemma_push_keeps_fresh(s: Seq<usize>, x: usize)
    requires
        !s.contains(x),
        forall|k: int| 2 <= k < s.len() ==> !#[trigger] s.take(k).contains(s[k]),
    ensures
        s.push(x).to_set() == s.to_set().insert(x),
        forall|k: int| 2 <= k < s.push(x).len() ==> !#[trigger] s.push(x).take(k).contains(s.push(x)[k]),
{
    let t = s.push(x);
    assert forall|y: usize| t.contains(y) <==> (s.contains(y) || y == x) by {
        if s.contains(y) {
            let k = choose|k: int| 0 <= k < s.len() && s[k] == y;
            assert(t[k] == y);
        }
        if y == x {
            assert(t[s.len() as int] == x);
        }
        if t.contains(y) {
            let k = choose|k: int| 0 <= k < t.len() && t[k] == y;
            if k < s.len() {
                assert(s[k] == y);
            }
        }
    }
    assert(t.to_set() =~= s.to_set().insert(x));
    assert forall|k: int| 2 <= k < t.len() implies !#[trigger] t.take(k).contains(t[k]) by {
        if k < s.len() {
            assert(t.take(k) =~= s.take(k));
            assert(t[k] == s[k]);
        } else {
            assert(t.take(k) =~= s);
        }
    }
}

/// `p` is a closed walk of the selector from the edge `s0 -> s1`: it starts
/// with that edge, every later vertex is new, every later step follows a
/// polygon edge or an extra segment, and the last vertex is joined to `s0`
/// likewise.
pub open spec fn closed_walk(n: usize, extra: Map<usize, Vec<usize>>, s0: usize, s1: usize, p: Seq<usize>) -> bool {
    &&& p.len() >= 3
    &&& p[0] == s0
    &&& p[1] == s1
    &&& forall|i: int| 0 <= i < p.len() ==> #[trigger] p[i] < n
    &&& forall|k: int| 2 <= k < p.len() ==> !#[trigger] p.take(k).contains(p[k])
    &&& forall|i: int| 1 <= i < p.len() - 1 ==> #[trigger] candidates(n, extra, p[i]).contains(p[i + 1])
    &&& candidates(n, extra, p.last()).contains(s0)
}

/// The count of `e` in the table, zero when it is missing.
pub open spec fn count_of(used: Map<(usize, usize), usize>, e: (usize, usize)) -> int {
    if used.contains_key(e) { used[e] as int } else { 0 }
}

proof fn lemma_walk_closed(
    geo: PlaneTables,
    n: usize,
    extra: Map<usize, Vec<usize>>,
    used: Map<(usize, usize), usize>,
    s0: usize,
    s1: usize,
    path: Seq<usize>,
    cur: usize,
)
    requires
        segments_within(extra, n),
        path.len() >= 2,
        path[0] == s0,
        path[1] == s1,
        forall|i: int| 0 <= i < path.len() ==> #[trigger] path[i] < n,
        forall|k: int| 2 <= k < path.len() ==> !#[trigger] path.take(k).contains(path[k]),
        forall|i: int| 1 <= i < path.len() - 1 ==> #[trigger] candidates(n, extra, path[i]).contains(path[i + 1]),
        cur < n,
        candidates(n, extra, path.last()).contains(cur),
    ensures
        walk(geo, n, extra, used, s0, path, cur) matches Ok(p) ==> closed_walk(n, extra, s0, s1, p),
    decreases n + 2 - path.len(),
{
    if path.len() >= n + 2 || path.contains(cur) {
        return;
    }
    let q = path.push(cur);
    lemma_push_keeps_fresh(path, cur);
    assert forall|i: int| 1 <= i < q.len() - 1 implies #[trigger] candidates(n, extra, q[i]).contains(q[i + 1]) by {
        if i < path.len() - 1 {
            assert(q[i] == path[i] && q[i + 1] == path[i + 1]);
        } else {
            assert(q[i] == path.last() && q[i + 1] == cur);
        }
    }
    assert forall|i: int| 0 <= i < q.len() implies #[trigger] q[i] < n by {
        if i < path.len() {
            assert(q[i] == path[i]);
        }
    }
    match step(geo, n, extra, used, path.to_set().remove(s0), path.last(), cur) {
        None => {},
        Some(nx) => {
            candidates_within(geo, n, extra, cur, nx, used, path.to_set().remove(s0), path.last());
            assert(q.last() == cur);
            if nx != s0 {
                lemma_walk_closed(geo, n, extra, used, s0, s1, q, nx);
            }
        },
    }
}

/// Every edge a walk takes was open when it took it.
proof fn lemma_walk_edges_open(
    geo: PlaneTables,
    n: usize,
    extra: Map<usize, Vec<usize>>,
    used: Map<(usize, usize), usize>,
    s0: usize,
    path: Seq<usize>,
    cur: usize,
)
    requires
        segments_within(extra, n),
        cur < n,
        path.len() >= 2,
        forall|i: int| 1 <= i < path.len() - 1 ==> #[trigger] edge_open(used, path[i], path[i + 1]),
        edge_open(used, path.last(), cur),
    ensures
        walk(geo, n, extra, used, s0, path, cur) matches Ok(p) ==> {
            &&& forall|i: int| 1 <= i < p.len() - 1 ==> #[trigger] edge_open(used, p[i], p[i + 1])
            &&& edge_open(used, p.last(), s0)
        },
    decreases n + 2 - path.len(),
{
    if path.len() >= n + 2 || path.contains(cur) {
        return;
    }
    let q = path.push(cur);
    let vis = path.to_set().remove(s0);
    match step(geo, n, extra, used, vis, path.last(), cur) {
        None => {},
        Some(nx) => {
            lemma_best_open_member(geo, candidates(n, extra, cur), used, vis, path.last(), cur);
            candidates_within(geo, n, extra, cur, nx, used, vis, path.last());
            assert forall|i: int| 1 <= i < q.len() - 1 implies #[trigger] edge_open(used, q[i], q[i + 1]) by {
                if i < path.len() - 1 {
                    assert(q[i] == path[i] && q[i + 1] == path[i + 1]);
                } else {
                    assert(q[i] == path.last() && q[i + 1] == cur);
                }
            }
            assert(q.last() == cur);
            if nx != s0 {
                lemma_walk_edges_open(geo, n, extra, used, s0, q, nx);
            }
        },
    }
}

/// No directed edge is walked twice: when no count of the table is above
/// one, none is above one after `select` either.
pub proof fn lemma_select_counts_stay_at_most_one(
    geo: PlaneTables,
    used: Map<(usize, usize), usize>,
    n: usize,
    extra: Map<usize, Vec<usize>>,
    s0: usize,
    s1: usize,
)
    requires
        s0 < n,
        s1 < n,
        segments_within(extra, n),
        forall|e: (usize, usize)| #[trigger] used.contains_key(e) ==> used[e] <= 1,
    ensures
        forall|e: (usize, usize)| #[trigger] select_outcome(geo, used, n, extra, s0, s1).0.contains_key(e)
            ==> select_outcome(geo, used, n, extra, s0, s1).0[e] <= 1,
{
    let before = with_start(used, s0, s1);
    let after = select_outcome(geo, used, n, extra, s0, s1).0;
    assert(counts_below_max(used));
    lemma_select_walks_closed_path(geo, used, n, extra, s0, s1);
    assert forall|e: (usize, usize)| #[trigger] before.contains_key(e) implies before[e] <= 1 by {
        if e != (s0, s1) {
            assert(used.contains_key(e));
        }
    }
    if before[(s0, s1)] < 1 {
        match step(geo, n, extra, before, set![s0], s0, s1) {
            None => {},
            Some(nx) => {
                lemma_best_open_member(geo, candidates(n, extra, s1), before, set![s0], s0, s1);
                candidates_within(geo, n, extra, s1, nx, before, set![s0], s0);
                let path = seq![s0, s1];
                assert(path.last() == s1);
                lemma_walk_edges_open(geo, n, extra, before, s0, path, nx);
                match walk(geo, n, extra, before, s0, path, nx) {
                    Err(_) => {},
                    Ok(p) => {
                        let m = p.len() as int;
                        assert forall|i: int| 0 <= i < m implies count_of(before, #[trigger] cycle_edge(p, i)) == 0 by {
                            if i == m - 1 {
                                vstd::arithmetic::div_mod::lemma_mod_self_0(m);
                                assert(cycle_edge(p, i) == (p.last(), s0));
                            } else {
                                vstd::arithmetic::div_mod::lemma_small_mod((i + 1) as nat, m as nat);
                                if i == 0 {
                                    assert(cycle_edge(p, i) == (s0, s1));
                                } else {
                                    assert(edge_open(before, p[i], p[i + 1]));
                                }
                            }
                        }
                        assert forall|e: (usize, usize)| #[trigger] after.contains_key(e) implies after[e] <= 1 by {
                            if exists|i: int| 0 <= i < m && cycle_edge(p, i) == e {
                                let i = choose|i: int| 0 <= i < m && cycle_edge(p, i) == e;
                                assert(count_of(before, cycle_edge(p, i)) == 0);
                            } else {
                                assert(forall|i: int| 0 <= i < m ==> cycle_edge(p, i) != e);
                            }
                        }
                    },
                }
            },
        }
    }
}

proof fn lemma_bumped_counts(used: Map<(usize, usize), usize>, p: Seq<usize>, i: nat)
    requires
        p.len() >= 3,
        forall|k: int| 2 <= k < p.len() ==> !#[trigger] p.take(k).contains(p[k]),
        i <= p.len(),
        counts_below_max(used),
    ensures
        forall|j: int| 0 <= j < i ==> #[trigger] bumped(used, p, i).contains_key(cycle_edge(p, j))
            && bumped(used, p, i)[cycle_edge(p, j)] == count_of(used, cycle_edge(p, j)) + 1,
    decreases i,
{
    if i > 0 {
        let h = (i - 1) as nat;
        lemma_bumped_counts(used, p, h);
        assert forall|j: int| 0 <= j < h implies cycle_edge(p, j) != cycle_edge(p, h as int) by {
            lemma_cycle_edges_distinct(p, j, h as int);
        }
        lemma_bumped_elsewhere(used, p, h, cycle_edge(p, h as int));
        let eh = cycle_edge(p, h as int);
        assert(bumped(used, p, i) == bump(bumped(used, p, h), eh.0, eh.1));
        assert forall|j: int| 0 <= j < i implies #[trigger] bumped(used, p, i).contains_key(cycle_edge(p, j))
            && bumped(used, p, i)[cycle_edge(p, j)] == count_of(used, cycle_edge(p, j)) + 1 by {
            if j < h {
                assert(cycle_edge(p, j) != eh);
                assert(bumped(used, p, h).contains_key(cycle_edge(p, j)));
            } else {
                assert(count_of(bumped(used, p, h), eh) == count_of(used, eh));
                assert(count_of(used, eh) < usize::MAX);
            }
        }
    }
}

/// A sub-polygon that `select` returns is a closed walk from the start edge
/// (see [`closed_walk`]), whatever the table of used edges holds.
pub proof fn lemma_select_closed(
    geo: PlaneTables,
    used: Map<(usize, usize), usize>,
    n: usize,
    extra: Map<usize, Vec<usize>>,
    s0: usize,
    s1: usize,
)
    requires
        s0 < n,
        s1 < n,
        segments_within(extra, n),
    ensures
        select_outcome(geo, used, n, extra, s0, s1).1 matches Ok(p) ==> closed_walk(n, extra, s0, s1, p),
{
    let before = with_start(used, s0, s1);
    if before[(s0, s1)] < 1 {
        match step(geo, n, extra, before, set![s0], s0, s1) {
            None => {},
            Some(nx) => {
                candidates_within(geo, n, extra, s1, nx, before, set![s0], s0);
                let path = seq![s0, s1];
                assert(path.last() == s1);
                lemma_walk_closed(geo, n, extra, before, s0, s1, path, nx);
            },
        }
    }
}

/// A sub-polygon that `select` returns is a closed walk from the start edge
/// (see [`closed_walk`]); then each of its edges counts once more than
/// before and every other count is as before.  When `select` fails, the
/// table only gains the start edge (with count zero) if it was missing.
#[verifier::spinoff_prover]
pub proof fn lemma_select_walks_closed_path(
    geo: PlaneTables,
    used: Map<(usize, usize), usize>,
    n: usize,
    extra: Map<usize, Vec<usize>>,
    s0: usize,
    s1: usize,
)
    requires
        s0 < n,
        s1 < n,
        segments_within(extra, n),
        counts_below_max(used),
    ensures
        ({
            let (after, out) = select_outcome(geo, used, n, extra, s0, s1);
            let before = with_start(used, s0, s1);
            &&& out is Err ==> after == before
            &&& out matches Ok(p) ==> {
                &&& closed_walk(n, extra, s0, s1, p)
                &&& forall|i: int| 0 <= i < p.len() ==> #[trigger] after.contains_key(cycle_edge(p, i))
                    && after[cycle_edge(p, i)] == count_of(before, cycle_edge(p, i)) + 1
                &&& forall|e: (usize, usize)| (forall|i: int| 0 <= i < p.len() ==> cycle_edge(p, i) != e)
                    ==> #[trigger] after.contains_key(e) == before.contains_key(e)
                        && (before.contains_key(e) ==> after[e] == before[e])
            }
        }),
{
    let before = with_start(used, s0, s1);
    if before[(s0, s1)] >= 1 {
        return;
    }
    match step(geo, n, extra, before, set![s0], s0, s1) {
        None => {},
        Some(nx) => {
            candidates_within(geo, n, extra, s1, nx, before, set![s0], s0);
            let path = seq![s0, s1];
            assert(path.last() == s1);
            lemma_walk_closed(geo, n, extra, before, s0, s1, path, nx);
            match walk(geo, n, extra, before, s0, path, nx) {
                Err(_) => {},
                Ok(p) => {
                    lemma_bumped_counts(before, p, p.len());
                    assert forall|e: (usize, usize)| (forall|i: int| 0 <= i < p.len() ==> cycle_edge(p, i) != e)
                        implies #[trigger] bumped(before, p, p.len()).contains_key(e) == before.contains_key(e)
                        && (before.contains_key(e) ==> bumped(before, p, p.len())[e] == before[e]) by {
                        lemma_bumped_elsewhere(before, p, p.len(), e);
                    }
                },
            }
        },
    }
}

} // verus!
