use vstd::prelude::*;
use crate::geometry::render_object::RenderError;

verus! {

/// The triangle indices `idx`, each moved up by `by`.
pub open spec fn shifted(idx: Seq<u32>, by: u32) -> Seq<u32> {
    idx.map_values(|i: u32| (i + by) as u32)
}

/// No index of `idx` leaves the `u32` range when moved up by `by`.
pub open spec fn shift_fits(idx: Seq<u32>, by: u32) -> bool {
    forall|j: int| 0 <= j < idx.len() ==> #[trigger] idx[j] + by <= u32::MAX
}

/// Every index of `idx` points at one of `n` vertices.
pub open spec fn indices_below(idx: Seq<u32>, n: int) -> bool {
    forall|j: int| 0 <= j < idx.len() ==> #[trigger] idx[j] < n
}

/// Whether no index of `idx` leaves the `u32` range when moved up by `by`.
pub fn shift_fits_check(idx: &Vec<u32>, by: u32) -> (b: bool)
    ensures
        b == shift_fits(idx@, by),
{
    let mut j: usize = 0;
    while j < idx.len()
        invariant
            j <= idx.len(),
            forall|x: int| 0 <= x < j ==> #[trigger] idx@[x] + by <= u32::MAX,
        decreases idx.len() - j,
    {
        if idx[j] > u32::MAX - by {
            return false;
        }
        j += 1;
    }
    true
}

/// Joins a rendered part, or passes its failure on: an error stays the
/// result and changes nothing; a part whose indices, moved up by the number
/// of vertices there, would leave the `u32` range gives `IndexOverflow` and
/// changes nothing; any other part is appended (see [`append_mesh`]).
pub fn join_rendered<V>(
    vertices: &mut Vec<V>,
    indices: &mut Vec<u32>,
    part: Result<(Vec<V>, Vec<u32>), RenderError>,
) -> (res: Result<(), RenderError>)
    ensures
        match part {
            Err(e) => {
                &&& res == Err::<(), RenderError>(e)
                &&& final(vertices)@ == old(vertices)@
                &&& final(indices)@ == old(indices)@
            },
            Ok((pv, pi)) => if shift_fits(pi@, old(vertices).len() as u32) {
                &&& res is Ok
                &&& final(vertices)@ == old(vertices)@ + pv@
                &&& final(indices)@ == old(indices)@ + shifted(pi@, old(vertices).len() as u32)
            } else {
                &&& res == Err::<(), RenderError>(RenderError::IndexOverflow)
                &&& final(vertices)@ == old(vertices)@
                &&& final(indices)@ == old(indices)@
            },
        },
{
    match part {
        Err(e) => Err(e),
        Ok((pv, pi)) => {
            let n = vertices.len() as u32;
            if !shift_fits_check(&pi, n) {
                return Err(RenderError::IndexOverflow);
            }
            append_mesh(vertices, indices, pv, pi);
            Ok(())
        },
    }
}

/// Appends a mesh part: its vertices go after the ones there, and its
/// triangle indices, moved up by the number of vertices that were there
/// (taken as a `u32`), go after the indices there.
pub fn append_mesh<V>(vertices: &mut Vec<V>, indices: &mut Vec<u32>, part_vertices: Vec<V>, part_indices: Vec<u32>)
    requires
        shift_fits(part_indices@, old(vertices).len() as u32),
    ensures
        final(vertices)@ == old(vertices)@ + part_vertices@,
        final(indices)@ == old(indices)@ + shifted(part_indices@, old(vertices).len() as u32),
{
    let n = vertices.len() as u32;
    let mut ids: Vec<u32> = Vec::new();
    let mut i: usize = 0;
    while i < part_indices.len()
        invariant
            i <= part_indices.len(),
            shift_fits(part_indices@, n),
            ids@ == shifted(part_indices@.take(i as int), n),
        decreases part_indices.len() - i,
    {
        ids.push(part_indices[i] + n);
        i += 1;
        assert(ids@ =~= shifted(part_indices@.take(i as int), n));
    }
    assert(part_indices@.take(part_indices.len() as int) =~= part_indices@);
    let mut pv = part_vertices;
    vertices.append(&mut pv);
    indices.append(&mut ids);
}

/// The mesh the parts make when appended one after the other by
/// [`append_mesh`].
pub open spec fn merged<V>(parts: Seq<(Vec<V>, Vec<u32>)>) -> (Seq<V>, Seq<u32>)
    decreases parts.len(),
{
    if parts.len() == 0 {
        (Seq::empty(), Seq::empty())
    } else {
        let prev = merged(parts.drop_last());
        let last = parts.last();
        (prev.0 + last.0@, prev.1 + shifted(last.1@, prev.0.len() as u32))
    }
}

/// No index leaves the `u32` range when the parts are appended.
pub open spec fn merge_fits<V>(parts: Seq<(Vec<V>, Vec<u32>)>) -> bool
    decreases parts.len(),
{
    parts.len() == 0 || (merge_fits(parts.drop_last()) && shift_fits(
        parts.last().1@,
        merged(parts.drop_last()).0.len() as u32,
    ))
}

proof fn lemma_merge_fits_prefix<V>(parts: Seq<(Vec<V>, Vec<u32>)>, k: int)
    requires
        merge_fits(parts),
        0 <= k <= parts.len(),
    ensures
        merge_fits(parts.take(k)),
    decreases parts.len() - k,
{
    if k < parts.len() {
        lemma_merge_fits_prefix(parts, k + 1);
        assert(parts.take(k + 1).drop_last() =~= parts.take(k));
    } else {
        assert(parts.take(k) =~= parts);
    }
}

/// Joins rendered parts into one mesh, in their order (see [`merged`]).
pub fn merge_meshes<V>(parts: Vec<(Vec<V>, Vec<u32>)>) -> (res: (Vec<V>, Vec<u32>))
    requires
        merge_fits(parts@),
    ensures
        (res.0@, res.1@) == merged(parts@),
{
    let ghost all = parts@;
    assert(all.len() == parts.len());
    let mut rest = parts;
    let mut vertices: Vec<V> = Vec::new();
    let mut indices: Vec<u32> = Vec::new();
    let mut k: usize = 0;
    while rest.len() > 0
        invariant
            k <= all.len(),
            all.len() <= usize::MAX,
            rest@ == all.skip(k as int),
            merge_fits(all),
            (vertices@, indices@) == merged(all.take(k as int)),
        decreases rest.len(),
    {
        let (pv, pi) = rest.remove(0);
        proof {
            lemma_merge_fits_prefix(all, k + 1);
            assert(all.take(k + 1).drop_last() =~= all.take(k as int));
            assert(all.take(k + 1).last() == all[k as int]);
            assert(all.skip(k as int)[0] == all[k as int]);
        }
        append_mesh(&mut vertices, &mut indices, pv, pi);
        k += 1;
        assert(rest@ =~= all.skip(k as int));
    }
    assert(all.take(k as int) =~= all);
    (vertices, indices)
}

/// Appending keeps a mesh sound: when every index of the mesh points at
/// one of its vertices, every index of the part at one of the part's
/// vertices, and the vertex count fits a `u32`, every index of the result
/// points at one of its vertices.
pub proof fn lemma_append_keeps_indices_valid<V>(
    vertices: Seq<V>,
    indices: Seq<u32>,
    part_vertices: Seq<V>,
    part_indices: Seq<u32>,
)
    requires
        indices_below(indices, vertices.len() as int),
        indices_below(part_indices, part_vertices.len() as int),
        vertices.len() + part_vertices.len() <= u32::MAX,
    ensures
        shift_fits(part_indices, vertices.len() as u32),
        indices_below(
            indices + shifted(part_indices, vertices.len() as u32),
            (vertices + part_vertices).len() as int,
        ),
{
    let r = indices + shifted(part_indices, vertices.len() as u32);
    assert forall|j: int| 0 <= j < r.len() implies #[trigger] r[j] < (vertices + part_vertices).len() by {
        if j >= indices.len() {
            assert(part_indices[j - indices.len()] < part_vertices.len());
        }
    }
}

/// Joining parts whose indices each point at their own vertices, with at
/// most `u32::MAX` vertices in all, cannot overflow, and every index of the
/// result points at one of its vertices.
pub proof fn lemma_merge_keeps_indices_valid<V>(parts: Seq<(Vec<V>, Vec<u32>)>)
    requires
        forall|k: int| 0 <= k < parts.len() ==> indices_below(#[trigger] parts[k].1@, parts[k].0@.len() as int),
        merged(parts).0.len() <= u32::MAX,
    ensures
        merge_fits(parts),
        indices_below(merged(parts).1, merged(parts).0.len() as int),
    decreases parts.len(),
{
    if parts.len() > 0 {
        let init = parts.drop_last();
        assert forall|k: int| 0 <= k < init.len() implies indices_below(#[trigger] init[k].1@, init[k].0@.len() as int) by {
            assert(init[k] == parts[k]);
        }
        lemma_merge_keeps_indices_valid(init);
        let last = parts.last();
        assert(indices_below(last.1@, last.0@.len() as int));
        lemma_append_keeps_indices_valid(merged(init).0, merged(init).1, last.0@, last.1@);
    }
}

/// The number of points in the rows before row `i`: the index of the first
/// point of row `i` when the points are numbered row by row.
pub open spec fn row_start(lens: Seq<usize>, i: int) -> int
    decreases i,
{
    if i <= 0 || i > lens.len() {
        0
    } else {
        row_start(lens, i - 1) + lens[i - 1]
    }
}

/// The index of every point of a grid stored row by row, rows of lengths
/// `row_lens`: point `j` of row `i` has index `row_start(row_lens, i) + j`.
pub fn cell_positions(row_lens: &Vec<usize>) -> (pos: Vec<Vec<usize>>)
    requires
        row_start(row_lens@, row_lens.len() as int) <= usize::MAX,
    ensures
        pos.len() == row_lens.len(),
        forall|i: int| 0 <= i < pos.len() ==> #[trigger] pos[i].len() == row_lens[i],
        forall|i: int, j: int| 0 <= i < pos.len() && 0 <= j < pos[i].len()
            ==> #[trigger] pos[i][j] == row_start(row_lens@, i) + j,
{
    let mut pos: Vec<Vec<usize>> = Vec::new();
    let mut idx: usize = 0;
    let mut i: usize = 0;
    while i < row_lens.len()
        invariant
            i <= row_lens.len(),
            idx == row_start(row_lens@, i as int),
            row_start(row_lens@, row_lens.len() as int) <= usize::MAX,
            pos.len() == i,
            forall|a: int| 0 <= a < i ==> #[trigger] pos[a].len() == row_lens[a],
            forall|a: int, b: int| 0 <= a < i && 0 <= b < pos[a].len()
                ==> #[trigger] pos[a][b] == row_start(row_lens@, a) + b,
        decreases row_lens.len() - i,
    {
        proof {
            lemma_row_start_monotone(row_lens@, i + 1, row_lens.len() as int);
        }
        let len = row_lens[i];
        let mut row: Vec<usize> = Vec::new();
        let mut j: usize = 0;
        while j < len
            invariant
                j <= len,
                idx + len <= usize::MAX,
                row.len() == j,
                forall|b: int| 0 <= b < j ==> #[trigger] row[b] == idx + b,
            decreases len - j,
        {
            row.push(idx + j);
            j += 1;
        }
        let ghost before = pos@;
        pos.push(row);
        proof {
            assert forall|a: int, b: int| 0 <= a < i + 1 && 0 <= b < pos[a].len()
                implies #[trigger] pos[a][b] == row_start(row_lens@, a) + b by {
                if a < i {
                    assert(pos[a] == before[a]);
                }
            }
        }
        idx += len;
        i += 1;
    }
    pos
}

/// The two triangles that [`grid_indices`] emits at the point with index
/// `idx` of a grid of `n` rows.
pub open spec fn quad(idx: int, n: int) -> Seq<u32> {
    seq![
        (idx + 1) as u32,
        (idx + n) as u32,
        idx as u32,
        (idx + n) as u32,
        (idx + 1) as u32,
        (idx + n + 1) as u32,
    ]
}

/// The triangles emitted at the first `k` points of row `i`: at every point
/// that is not in the last row and not the last point of its row.
pub open spec fn row_cells(lens: Seq<usize>, i: int, k: int) -> Seq<u32>
    decreases k,
{
    if k <= 0 {
        Seq::empty()
    } else {
        row_cells(lens, i, k - 1) + if i < lens.len() - 1 && k - 1 < lens[i] - 1 {
            quad(row_start(lens, i) + k - 1, lens.len() as int)
        } else {
            Seq::empty()
        }
    }
}

/// The triangles emitted for the first `r` rows.
pub open spec fn grid_cells(lens: Seq<usize>, r: int) -> Seq<u32>
    decreases r,
{
    if r <= 0 || r > lens.len() {
        Seq::empty()
    } else {
        grid_cells(lens, r - 1) + row_cells(lens, r - 1, lens[r - 1] as int)
    }
}

/// The number of grid cells in row `i`: a row other than the last has a
/// cell at each point but its last one.
pub open spec fn row_cell_count(lens: Seq<usize>, i: int) -> int {
    if 0 <= i < lens.len() - 1 && lens[i] >= 1 { lens[i] - 1 } else { 0 }
}

/// The number of grid cells in the rows before row `q`.
pub open spec fn cells_before(lens: Seq<usize>, q: int) -> int
    decreases q,
{
    if q <= 0 { 0 } else { cells_before(lens, q - 1) + row_cell_count(lens, q - 1) }
}

/// Where the two triangles of the cell at point `j` of row `i` begin in
/// the indices: the cells come row by row, each row from left to right.
pub open spec fn cell_offset(lens: Seq<usize>, i: int, j: int) -> int {
    6 * (cells_before(lens, i) + j)
}

proof fn lemma_cells_before_nonneg(lens: Seq<usize>, q: int)
    ensures
        cells_before(lens, q) >= 0,
    decreases q,
{
    if q > 0 {
        lemma_cells_before_nonneg(lens, q - 1);
    }
}

/// The triangles of the first `k` points of row `i`: one pair per cell,
/// in order.
proof fn lemma_row_cells_layout(lens: Seq<usize>, i: int, k: int)
    requires
        0 <= i < lens.len(),
        0 <= k <= lens[i],
    ensures
        row_cells(lens, i, k).len() == 6 * (if i < lens.len() - 1 && k > 0 { if k < lens[i] { k } else { k - 1 } } else { 0 }),
        forall|j: int| 0 <= j < k && i < lens.len() - 1 && j < lens[i] - 1 ==>
            #[trigger] row_cells(lens, i, k).subrange(6 * j, 6 * j + 6) == quad(row_start(lens, i) + j, lens.len() as int),
    decreases k,
{
    if k > 0 {
        lemma_row_cells_layout(lens, i, k - 1);
        let prev = row_cells(lens, i, k - 1);
        let add = if i < lens.len() - 1 && k - 1 < lens[i] - 1 {
            quad(row_start(lens, i) + k - 1, lens.len() as int)
        } else {
            Seq::empty()
        };
        assert(row_cells(lens, i, k) == prev + add);
        assert forall|j: int| 0 <= j < k && i < lens.len() - 1 && j < lens[i] - 1 implies
            #[trigger] row_cells(lens, i, k).subrange(6 * j, 6 * j + 6) == quad(row_start(lens, i) + j, lens.len() as int) by {
            if j < k - 1 {
                assert((prev + add).subrange(6 * j, 6 * j + 6) =~= prev.subrange(6 * j, 6 * j + 6));
            } else {
                assert(prev.len() == 6 * j);
                assert((prev + add).subrange(6 * j, 6 * j + 6) =~= add);
            }
        }
    }
}

/// The indices of the first `q` rows of a grid: two triangles per cell,
/// cell after cell, row by row (see [`cell_offset`]).
pub proof fn lemma_grid_cells_layout(lens: Seq<usize>, q: int)
    requires
        0 <= q <= lens.len(),
    ensures
        grid_cells(lens, q).len() == 6 * cells_before(lens, q),
        forall|i: int, j: int| 0 <= i < q && i < lens.len() - 1 && 0 <= j < lens[i] - 1 ==>
            grid_cells(lens, q).subrange(#[trigger] cell_offset(lens, i, j), cell_offset(lens, i, j) + 6)
                == quad(row_start(lens, i) + j, lens.len() as int),
    decreases q,
{
    if q > 0 {
        lemma_grid_cells_layout(lens, q - 1);
        let r = q - 1;
        lemma_row_cells_layout(lens, r, lens[r] as int);
        let prev = grid_cells(lens, r);
        let row = row_cells(lens, r, lens[r] as int);
        assert(grid_cells(lens, q) == prev + row);
        assert(row.len() == 6 * row_cell_count(lens, r));
        assert forall|i: int, j: int| 0 <= i < q && i < lens.len() - 1 && 0 <= j < lens[i] - 1 implies
            grid_cells(lens, q).subrange(#[trigger] cell_offset(lens, i, j), cell_offset(lens, i, j) + 6)
                == quad(row_start(lens, i) + j, lens.len() as int) by {
            lemma_cells_before_nonneg(lens, i);
            if i < r {
                lemma_cells_before_mono(lens, i + 1, r);
                assert(cell_offset(lens, i, j) + 6 <= 6 * cells_before(lens, i + 1));
                assert((prev + row).subrange(cell_offset(lens, i, j), cell_offset(lens, i, j) + 6)
                    =~= prev.subrange(cell_offset(lens, i, j), cell_offset(lens, i, j) + 6));
            } else {
                assert(row.subrange(6 * j, 6 * j + 6) == quad(row_start(lens, i) + j, lens.len() as int));
                assert((prev + row).subrange(cell_offset(lens, i, j), cell_offset(lens, i, j) + 6)
                    =~= row.subrange(6 * j, 6 * j + 6));
            }
        }
    }
}

proof fn lemma_cells_before_mono(lens: Seq<usize>, a: int, b: int)
    requires
        a <= b,
    ensures
        cells_before(lens, a) <= cells_before(lens, b),
    decreases b - a,
{
    if a < b {
        lemma_cells_before_mono(lens, a, b - 1);
        if b > 0 {
            assert(cells_before(lens, b) == cells_before(lens, b - 1) + row_cell_count(lens, b - 1));
        }
    }
}

/// On a square grid of `r` rows of `r` points the indices are exactly two
/// triangles for each of the `(r - 1) * (r - 1)` cells, cell `(i, j)` at
/// place `6 * ((r - 1) * i + j)` on the points `r * i + j` and after.
pub proof fn lemma_square_grid_layout(lens: Seq<usize>)
    requires
        forall|k: int| 0 <= k < lens.len() ==> #[trigger] lens[k] == lens.len(),
    ensures
        grid_cells(lens, lens.len() as int).len() == 6 * (lens.len() - 1) * (lens.len() - 1) || lens.len() == 0,
        forall|i: int, j: int| 0 <= i < lens.len() - 1 && 0 <= j < lens.len() - 1 ==>
            grid_cells(lens, lens.len() as int).subrange(#[trigger] cell_offset(lens, i, j), cell_offset(lens, i, j) + 6)
                == seq![
                    (lens.len() * i + j + 1) as u32,
                    (lens.len() * i + j + lens.len()) as u32,
                    (lens.len() * i + j) as u32,
                    (lens.len() * i + j + lens.len()) as u32,
                    (lens.len() * i + j + 1) as u32,
                    (lens.len() * i + j + lens.len() + 1) as u32,
                ]
                && cell_offset(lens, i, j) == 6 * ((lens.len() - 1) * i + j),
{
    let r = lens.len() as int;
    lemma_grid_cells_layout(lens, r);
    assert forall|q: int| 0 <= q <= r implies #[trigger] cells_before(lens, q) == (if r > 0 { (r - 1) * (if q < r { q } else { r - 1 }) } else { 0 }) by {
        lemma_square_cells_before(lens, q);
    }
    assert forall|i: int, j: int| 0 <= i < r - 1 && 0 <= j < r - 1 implies
        grid_cells(lens, r).subrange(#[trigger] cell_offset(lens, i, j), cell_offset(lens, i, j) + 6)
            == seq![
                (r * i + j + 1) as u32,
                (r * i + j + r) as u32,
                (r * i + j) as u32,
                (r * i + j + r) as u32,
                (r * i + j + 1) as u32,
                (r * i + j + r + 1) as u32,
            ] && cell_offset(lens, i, j) == 6 * ((r - 1) * i + j) by {
        lemma_square_row_start(lens, i);
        assert(lens[i] == r);
        assert(row_start(lens, i) == i * r);
        assert(i * r == r * i) by (nonlinear_arith);
        lemma_square_cells_before(lens, i);
    }
    if r > 0 {
        lemma_square_cells_before(lens, r);
        assert(6 * ((r - 1) * (r - 1)) == 6 * (r - 1) * (r - 1)) by (nonlinear_arith);
    }
}

proof fn lemma_square_cells_before(lens: Seq<usize>, q: int)
    requires
        forall|k: int| 0 <= k < lens.len() ==> #[trigger] lens[k] == lens.len(),
        0 <= q <= lens.len(),
    ensures
        cells_before(lens, q) == (if lens.len() > 0 { (lens.len() - 1) * (if q < lens.len() { q } else { lens.len() - 1 }) } else { 0 }),
    decreases q,
{
    let r = lens.len() as int;
    if q > 0 {
        lemma_square_cells_before(lens, q - 1);
        assert(lens[q - 1] == r);
        if q < r {
            assert((r - 1) * (q - 1) + (r - 1) == (r - 1) * q) by (nonlinear_arith);
        } else {
            assert((r - 1) * (q - 1) == (r - 1) * (r - 1)) by {
                assert(q == r);
            }
        }
    }
}

proof fn lemma_row_start_monotone(lens: Seq<usize>, i: int, j: int)
    requires
        0 <= i <= j <= lens.len(),
    ensures
        row_start(lens, i) <= row_start(lens, j),
    decreases j - i,
{
    if i < j {
        lemma_row_start_monotone(lens, i, j - 1);
    }
}

/// The triangle indices of a grid of points stored row by row, rows of
/// lengths `row_lens`: two triangles at every point that is neither in the
/// last row nor the last of its row, joining it to the point after it and
/// to the point `row_lens.len()` places further on (see [`grid_cells`]):
/// the pairs of triangles come cell after cell, row by row, one pair for
/// every point that has a cell.
pub fn grid_indices(row_lens: &Vec<usize>) -> (res: Vec<u32>)
    requires
        row_start(row_lens@, row_lens.len() as int) + row_lens.len() <= u32::MAX,
    ensures
        res@ == grid_cells(row_lens@, row_lens.len() as int),
        res@.len() == 6 * cells_before(row_lens@, row_lens.len() as int),
        forall|i: int, j: int| 0 <= i < row_lens.len() - 1 && 0 <= j < row_lens[i] - 1 ==>
            res@.subrange(#[trigger] cell_offset(row_lens@, i, j), cell_offset(row_lens@, i, j) + 6) == seq![
                (row_start(row_lens@, i) + j + 1) as u32,
                (row_start(row_lens@, i) + j + row_lens.len()) as u32,
                (row_start(row_lens@, i) + j) as u32,
                (row_start(row_lens@, i) + j + row_lens.len()) as u32,
                (row_start(row_lens@, i) + j + 1) as u32,
                (row_start(row_lens@, i) + j + row_lens.len() + 1) as u32,
            ],
{
    let ghost lens = row_lens@;
    proof {
        lemma_grid_cells_layout(lens, lens.len() as int);
    }
    let ghost total = row_start(lens, lens.len() as int);
    let rows = row_lens.len();
    proof {
        lemma_row_start_monotone(lens, 0, rows as int);
    }
    let n = rows as u32;
    let mut idx: u32 = 0;
    let mut indeces: Vec<u32> = Vec::new();
    let mut i: u32 = 0;
    while (i as usize) < rows
        invariant
            lens == row_lens@,
            rows == lens.len(),
            n == rows,
            total == row_start(lens, lens.len() as int),
            total + rows <= u32::MAX,
            i <= rows,
            idx == row_start(lens, i as int),
            indeces@ == grid_cells(lens, i as int),
        decreases rows - i,
    {
        proof {
            lemma_row_start_monotone(lens, i + 1, rows as int);
        }
        let len_i = row_lens[i as usize] as u32;
        let mut j: u32 = 0;
        while j < len_i
            invariant
                lens == row_lens@,
                rows == lens.len(),
                n == rows,
                total + rows <= u32::MAX,
                i < rows,
                len_i == lens[i as int],
                row_start(lens, i + 1) <= total,
                row_start(lens, i + 1) == row_start(lens, i as int) + len_i,
                j <= len_i,
                idx == row_start(lens, i as int) + j,
                indeces@ == grid_cells(lens, i as int) + row_cells(lens, i as int, j as int),
            decreases len_i - j,
        {
            if i < n - 1 && j < len_i - 1 {
                indeces.push(idx + 1);
                indeces.push(idx + n);
                indeces.push(idx);
                indeces.push(idx + n);
                indeces.push(idx + 1);
                indeces.push(idx + n + 1);
            }
            idx += 1;
            j += 1;
            assert(indeces@ =~= grid_cells(lens, i as int) + row_cells(lens, i as int, j as int));
        }
        i += 1;
        assert(indeces@ =~= grid_cells(lens, i as int));
    }
    indeces
}

proof fn lemma_square_row_start(lens: Seq<usize>, i: int)
    requires
        forall|k: int| 0 <= k < lens.len() ==> #[trigger] lens[k] == lens.len(),
        0 <= i <= lens.len(),
    ensures
        row_start(lens, i) == i * lens.len(),
    decreases i,
{
    if i > 0 {
        lemma_square_row_start(lens, i - 1);
        assert(lens[i - 1] == lens.len());
        let r = lens.len() as int;
        assert((i - 1) * r + r == i * r) by (nonlinear_arith);
        assert(row_start(lens, i) == row_start(lens, i - 1) + lens[i - 1]);
    } else {
        assert(0 * lens.len() == 0);
    }
}

proof fn lemma_square_row_cells(lens: Seq<usize>, i: int, k: int)
    requires
        forall|m: int| 0 <= m < lens.len() ==> #[trigger] lens[m] == lens.len(),
        lens.len() * lens.len() <= u32::MAX,
        0 <= i < lens.len(),
        0 <= k <= lens.len(),
    ensures
        indices_below(row_cells(lens, i, k), (lens.len() * lens.len()) as int),
    decreases k,
{
    if k > 0 {
        lemma_square_row_cells(lens, i, k - 1);
        let r = lens.len() as int;
        if i < r - 1 && k - 1 < lens[i] - 1 {
            lemma_square_row_start(lens, i);
            let idx = row_start(lens, i) + k - 1;
            assert(idx + r + 1 <= r * r - 1) by (nonlinear_arith)
                requires
                    idx == i * r + k - 1,
                    0 <= i <= r - 2,
                    1 <= k <= r - 1,
            ;
            let q = quad(idx, r);
            assert(indices_below(q, r * r));
        }
        let prev = row_cells(lens, i, k - 1);
        let add = if i < r - 1 && k - 1 < lens[i] - 1 { quad(row_start(lens, i) + k - 1, r) } else { Seq::empty() };
        assert(row_cells(lens, i, k) == prev + add);
        assert(indices_below(prev + add, r * r)) by {
            assert forall|j: int| 0 <= j < (prev + add).len() implies #[trigger] (prev + add)[j] < r * r by {
                if j >= prev.len() {
                    assert((prev + add)[j] == add[j - prev.len()]);
                }
            }
        }
    }
}

proof fn lemma_square_grid_cells(lens: Seq<usize>, rr: int)
    requires
        forall|m: int| 0 <= m < lens.len() ==> #[trigger] lens[m] == lens.len(),
        lens.len() * lens.len() <= u32::MAX,
        0 <= rr <= lens.len(),
    ensures
        indices_below(grid_cells(lens, rr), (lens.len() * lens.len()) as int),
    decreases rr,
{
    if rr > 0 {
        let r = lens.len() as int;
        lemma_square_grid_cells(lens, rr - 1);
        lemma_square_row_cells(lens, rr - 1, lens[rr - 1] as int);
        let a = grid_cells(lens, rr - 1);
        let b = row_cells(lens, rr - 1, lens[rr - 1] as int);
        assert forall|j: int| 0 <= j < (a + b).len() implies #[trigger] (a + b)[j] < r * r by {
            if j >= a.len() {
                assert((a + b)[j] == b[j - a.len()]);
            }
        }
    }
}

/// On a square grid (as many points in each row as there are rows) every
/// triangle index that [`grid_indices`] emits points at one of the grid's
/// points.
pub proof fn lemma_square_grid_indices_valid(lens: Seq<usize>)
    requires
        forall|m: int| 0 <= m < lens.len() ==> #[trigger] lens[m] == lens.len(),
        lens.len() * lens.len() <= u32::MAX,
    ensures
        indices_below(grid_cells(lens, lens.len() as int), (lens.len() * lens.len()) as int),
        row_start(lens, lens.len() as int) == lens.len() * lens.len(),
{
    lemma_square_grid_cells(lens, lens.len() as int);
    lemma_square_row_start(lens, lens.len() as int);
}

} // verus!
