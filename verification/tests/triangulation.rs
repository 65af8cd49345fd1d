use std::collections::HashMap;
use carrot::geometry::monotone::{to_monotonic_addings, VertexKind};
use carrot::geometry::triangulation::{
    diagonal_starts, sweep_order, triangulate_2d, triangulate_piece, triangulate_pieces, CoordOrder, PlaneTables,
    TriangulateError,
};

/// Points of the plane and the tables of answers they give.
struct Plane {
    pts: Vec<(f32, f32)>,
}

fn order_of(a: f32, b: f32) -> CoordOrder {
    match a.partial_cmp(&b) {
        Some(std::cmp::Ordering::Less) => CoordOrder::Less,
        Some(std::cmp::Ordering::Equal) => CoordOrder::Equal,
        Some(std::cmp::Ordering::Greater) => CoordOrder::Greater,
        None => CoordOrder::Unordered,
    }
}

impl Plane {
    fn tables(&self) -> PlaneTables {
        let p = &self.pts;
        let n = p.len();
        let before = (0..n)
            .map(|a| (0..n).map(|b| if p[a].1 != p[b].1 { p[a].1 < p[b].1 } else { p[b].0 < p[a].0 }).collect())
            .collect();
        let left = (0..n)
            .map(|k| (0..n).map(|q| if p[k].1 != p[q].1 { p[k].1 < p[q].1 } else { p[q].0 < p[k].0 }).collect())
            .collect();
        let cross = (0..n)
            .map(|f| {
                (0..n)
                    .map(|b| {
                        (0..n)
                            .map(|t| {
                                let fb = (p[f].0 - p[b].0, p[f].1 - p[b].1);
                                let tb = (p[t].0 - p[b].0, p[t].1 - p[b].1);
                                order_of(fb.0 * tb.1 - fb.1 * tb.0, 0.0)
                            })
                            .collect()
                    })
                    .collect()
            })
            .collect();
        let negative = (0..n)
            .map(|a| {
                (0..n)
                    .map(|b| {
                        (0..n)
                            .map(|c| {
                                let (p0, p1, p2) = (p[a], p[b], p[c]);
                                (p1.0 - p0.0) * (p1.1 + p0.1) + (p2.0 - p1.0) * (p2.1 + p1.1) + (p0.0 - p2.0) * (p0.1 + p2.1)
                                    < 0.0
                            })
                            .collect()
                    })
                    .collect()
            })
            .collect();
        PlaneTables { before, left, cross, negative }
    }

    /// The sweep's inputs as the points give them: the order the sweep
    /// meets the vertices, their kinds, the order keys of the edges, and
    /// which edge passes left of which vertex.
    fn sweep_inputs(&self) -> (Vec<usize>, Vec<VertexKind>, Vec<i64>, Vec<Vec<bool>>) {
        let p = &self.pts;
        let n = p.len();
        let mut order = (0..n).collect::<Vec<_>>();
        order.sort_by(|i, j| {
            if p[*i].1 != p[*j].1 { p[*i].1.partial_cmp(&p[*j].1).unwrap() } else { p[*j].0.partial_cmp(&p[*i].0).unwrap() }
        });
        order.reverse();
        let above = |a: (f32, f32), b: (f32, f32)| a.1 > b.1 || (a.1 == b.1 && a.0 < b.0);
        let mut kinds = vec![];
        for i in 0..n {
            let next = p[(i + 1) % n];
            let prev = p[(i + n - 1) % n];
            let this = p[i];
            let turn = (this.0 - prev.0) * (next.1 - this.1) - (this.1 - prev.1) * (next.0 - this.0);
            kinds.push(VertexKind::classify(
                above(next, this) && above(prev, this),
                above(this, next) && above(this, prev),
                turn > 0.0,
                above(prev, this),
            ));
        }
        // edge keys: a topological order of "lies left of, where both cross
        // a horizontal line"
        let ends = |e: usize| (p[e], p[(e + 1) % n]);
        let x_at = |e: usize, y: f32| {
            let (a, b) = ends(e);
            if a.1 == b.1 { a.0.min(b.0) } else { a.0 + (y - a.1) * (b.0 - a.0) / (b.1 - a.1) }
        };
        let mut right_of = vec![Vec::new(); n];
        let mut pending = vec![0usize; n];
        for a in 0..n {
            for b in a + 1..n {
                let ((a0, a1), (b0, b1)) = (ends(a), ends(b));
                let lo = a0.1.min(a1.1).max(b0.1.min(b1.1));
                let hi = a0.1.max(a1.1).min(b0.1.max(b1.1));
                if lo > hi {
                    continue;
                }
                let y = (lo + hi) / 2.0;
                let (xa, xb) = (x_at(a, y), x_at(b, y));
                if xa < xb {
                    right_of[a].push(b);
                    pending[b] += 1;
                } else if xb < xa {
                    right_of[b].push(a);
                    pending[a] += 1;
                }
            }
        }
        let mut keys = vec![i64::MAX; n];
        let mut queue = (0..n).filter(|&e| pending[e] == 0).collect::<std::collections::VecDeque<_>>();
        let mut next = 0i64;
        while let Some(e) = queue.pop_front() {
            keys[e] = next;
            next += 1;
            for &r in &right_of[e] {
                pending[r] -= 1;
                if pending[r] == 0 {
                    queue.push_back(r);
                }
            }
        }
        let left_of = (0..n)
            .map(|i| {
                (0..n)
                    .map(|s| {
                        let st = p[s];
                        let end = p[(s + 1) % n];
                        let x = if st.1 == end.1 {
                            st.0.max(end.0)
                        } else {
                            st.0 + (p[i].1 - st.1) * (end.0 - st.0) / (end.1 - st.1)
                        };
                        x < p[i].0
                    })
                    .collect()
            })
            .collect();
        (order, kinds, keys, left_of)
    }
}

fn square() -> Plane {
    Plane { pts: vec![(0.0, 0.0), (1.0, 0.0), (1.0, 1.0), (0.0, 1.0)] }
}

fn no_left(n: usize) -> Vec<Vec<bool>> {
    vec![vec![false; n]; n]
}

#[test]
fn sweep_order_runs_top_down() {
    let g = square();
    assert_eq!(sweep_order(&g.tables(), &vec![0, 1, 2, 3]), vec![3, 2, 0, 1]);
}

#[test]
fn sweep_order_is_by_position_in_the_piece() {
    let g = square();
    // the piece lists the polygon's vertices 2, 3, 0, 1
    assert_eq!(sweep_order(&g.tables(), &vec![2, 3, 0, 1]), vec![1, 0, 2, 3]);
}

#[test]
fn square_piece_gives_two_triangles() {
    let g = square();
    let mut out = vec![9];
    triangulate_piece(&g.tables(), &vec![0, 1, 2, 3], &mut out);
    assert_eq!(out, vec![9, 0, 2, 3, 1, 2, 0]);
}

#[test]
fn triangle_piece_gives_itself() {
    let g = Plane { pts: vec![(0.0, 0.0), (1.0, 0.0), (0.0, 1.0)] };
    let mut out = Vec::new();
    triangulate_piece(&g.tables(), &vec![0, 1, 2], &mut out);
    assert_eq!(out.len(), 3);
    let mut s = out.clone();
    s.sort();
    assert_eq!(s, vec![0, 1, 2]);
}

#[test]
fn diagonal_starts_lists_each_end() {
    let mut d: HashMap<usize, Vec<usize>> = HashMap::new();
    d.insert(0, vec![2]);
    d.insert(2, vec![0, 3]);
    d.insert(3, vec![2]);
    let mut s = diagonal_starts(&d);
    s.sort();
    assert_eq!(s, vec![(0, 2), (2, 0), (2, 3), (3, 2)]);
}

#[test]
fn pieces_are_found_and_triangulated_in_turn() {
    let g = square();
    let d: HashMap<usize, Vec<usize>> = HashMap::new();
    // the first start walks the square forwards, the second finds nothing
    // new, the third walks it backwards
    let out = triangulate_pieces(&g.tables(), 4, &d, &vec![(0, 1), (0, 1), (1, 0)]);
    assert_eq!(out, vec![0, 2, 3, 1, 2, 0, 0, 2, 3, 1, 2, 0]);
}

#[test]
fn too_few_points_are_refused() {
    let g = Plane { pts: vec![(0.0, 0.0), (1.0, 0.0)] };
    let kinds = vec![VertexKind::Start, VertexKind::End];
    let r = triangulate_2d(&g.tables(), &vec![0, 1], &kinds, &vec![0, 1], &no_left(2));
    assert_eq!(r, Err(TriangulateError::NotEnoughPoints));
}

#[test]
fn square_without_diagonals_is_cut_once() {
    let g = square();
    let kinds = vec![VertexKind::RegularRight; 4];
    let r = triangulate_2d(&g.tables(), &vec![3, 2, 0, 1], &kinds, &vec![0, 1, 1, 0], &no_left(4));
    assert_eq!(r, Ok(vec![0, 2, 3, 1, 2, 0]));
}

#[test]
fn sweep_inputs_of_the_house() {
    let g = Plane { pts: vec![(0.0, 0.0), (1.0, 0.0), (1.0, 1.0), (0.5, 1.5), (0.0, 1.0)] };
    let (order, kinds, keys, _) = g.sweep_inputs();
    assert_eq!(order, vec![3, 4, 2, 0, 1]);
    assert_eq!(
        kinds,
        vec![
            VertexKind::RegularLeft,
            VertexKind::End,
            VertexKind::RegularRight,
            VertexKind::Start,
            VertexKind::RegularLeft
        ]
    );
    assert_eq!(keys, vec![0, 3, 4, 1, 2]);
}

#[test]
fn test_polygon() {
    // the house: a unit square with a roof point; it is monotone already,
    // so the sweep records no diagonal and the polygon is one piece
    let g = Plane { pts: vec![(0.0, 0.0), (1.0, 0.0), (1.0, 1.0), (0.5, 1.5), (0.0, 1.0)] };
    let (order, kinds, keys, left_of) = g.sweep_inputs();
    let res = triangulate_2d(&g.tables(), &order, &kinds, &keys, &left_of);
    println!("{:?}", res);
    assert_eq!(res, Ok(vec![2, 3, 4, 0, 2, 4, 1, 2, 0]));
}

/// Twice the signed area of the triangle `a`, `b`, `c`.
fn area2(p: &[(f32, f32)], a: u32, b: u32, c: u32) -> f32 {
    let (a, b, c) = (p[a as usize], p[b as usize], p[c as usize]);
    (b.0 - a.0) * (c.1 - a.1) - (b.1 - a.1) * (c.0 - a.0)
}

/// `out` cuts the counter-clockwise polygon `p` into `n - 2` triangles, each
/// counter-clockwise, whose areas add up to the polygon's.
fn assert_triangulates(p: &[(f32, f32)], out: &[u32]) {
    let n = p.len();
    assert_eq!(out.len(), 3 * (n - 2));
    let mut sum = 0.0;
    for t in out.chunks(3) {
        let a = area2(p, t[0], t[1], t[2]);
        assert!(a > 0.0, "triangle {:?} is not counter-clockwise", t);
        sum += a;
    }
    let mut poly = 0.0;
    for i in 0..n {
        let (q, r) = (p[i], p[(i + 1) % n]);
        poly += q.0 * r.1 - r.0 * q.1;
    }
    assert!((sum - poly).abs() < 1e-4, "areas {} and {}", sum, poly);
}

/// The triangles of `out` as sorted vertex sets, sorted.
fn triangle_sets(out: &[u32]) -> Vec<Vec<u32>> {
    let mut v: Vec<Vec<u32>> = out
        .chunks(3)
        .map(|t| {
            let mut t = t.to_vec();
            t.sort();
            t
        })
        .collect();
    v.sort();
    v
}

fn notch() -> Plane {
    Plane { pts: vec![(0.0, 0.0), (4.0, 0.5), (3.0, 3.0), (2.0, 1.5), (1.0, 2.8)] }
}

#[test]
fn sweep_inputs_of_the_notch() {
    let (order, kinds, keys, _) = notch().sweep_inputs();
    assert_eq!(order, vec![2, 4, 3, 1, 0]);
    assert_eq!(
        kinds,
        vec![VertexKind::End, VertexKind::RegularRight, VertexKind::Start, VertexKind::Merge, VertexKind::Start]
    );
    assert_eq!(keys, vec![1, 4, 3, 2, 0]);
}

#[test]
fn notch_polygon_is_cut_at_its_merge_vertex() {
    // vertex 3 is a reflex notch between the peaks 2 and 4: the sweep joins
    // it to vertex 1, and the two pieces give the polygon's only
    // triangulation
    let g = notch();
    let (order, kinds, keys, left_of) = g.sweep_inputs();
    let out = triangulate_2d(&g.tables(), &order, &kinds, &keys, &left_of).unwrap();
    assert_eq!(triangle_sets(&out), vec![vec![0, 1, 3], vec![0, 3, 4], vec![1, 2, 3]]);
    assert_triangulates(&g.pts, &out);
}

#[test]
fn polygon_with_a_split_vertex_is_triangulated() {
    // vertex 1 points up into the polygon from below
    let g = Plane { pts: vec![(0.0, 0.0), (2.0, 2.0), (4.0, 0.0), (4.0, 3.0), (0.0, 3.0)] };
    let (order, kinds, keys, left_of) = g.sweep_inputs();
    assert_eq!(order, vec![4, 3, 1, 0, 2]);
    assert_eq!(
        kinds,
        vec![VertexKind::End, VertexKind::Split, VertexKind::End, VertexKind::RegularRight, VertexKind::Start]
    );
    let out = triangulate_2d(&g.tables(), &order, &kinds, &keys, &left_of).unwrap();
    assert_triangulates(&g.pts, &out);
}

#[test]
fn house_is_triangulated() {
    let g = Plane { pts: vec![(0.0, 0.0), (1.0, 0.0), (1.0, 1.0), (0.5, 1.5), (0.0, 1.0)] };
    let (order, kinds, keys, left_of) = g.sweep_inputs();
    let out = triangulate_2d(&g.tables(), &order, &kinds, &keys, &left_of).unwrap();
    assert_triangulates(&g.pts, &out);
}

#[test]
fn three_split_vertices_joined_to_one_helper() {
    // the split vertices 3, 7 and 9 are all joined to vertex 5
    let g = Plane {
        pts: vec![
            (2.0, 3.0),
            (-3.0, 7.0),
            (-8.0, -5.0),
            (-5.0, -4.0),
            (-3.0, -4.0),
            (-2.0, -3.0),
            (-3.0, -8.0),
            (2.0, -4.0),
            (6.0, -7.0),
            (6.0, 0.0),
        ],
    };
    let (order, kinds, keys, left_of) = g.sweep_inputs();
    let d = to_monotonic_addings(&order, &kinds, &keys, &left_of).unwrap();
    let mut at5 = d.get(&5).unwrap().clone();
    at5.sort();
    assert_eq!(at5, vec![3, 7, 9]);
    let out = triangulate_2d(&g.tables(), &order, &kinds, &keys, &left_of).unwrap();
    assert_triangulates(&g.pts, &out);
}

#[test]
fn three_merge_vertices_joined_to_one_vertex() {
    let g = Plane {
        pts: vec![
            (1.0, 7.0),
            (-1.0, 3.0),
            (-5.0, 5.0),
            (-4.0, 3.0),
            (-3.0, 2.0),
            (-8.0, 4.0),
            (-6.0, 2.0),
            (-9.0, 3.0),
            (4.0, -8.0),
            (4.0, -2.0),
        ],
    };
    let (order, kinds, keys, left_of) = g.sweep_inputs();
    let out = triangulate_2d(&g.tables(), &order, &kinds, &keys, &left_of).unwrap();
    assert_triangulates(&g.pts, &out);
}
