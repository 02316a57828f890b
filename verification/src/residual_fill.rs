//! Occupancy of the residual LUT grid and nearest-neighbour filling of its empty cells.
use vstd::prelude::*;
use crate::lut_index::{
    get_lut_coords, get_lut_index, in_grid, lemma_coords_of_index, lemma_index_of_coords,
    lut_coords_spec, lut_index_spec, LUT_SIZE, LUT_TOTAL,
};

verus! {

/// A per-cell sample count over the 17×17×17 grid, indexed `[r][g][b]`.
pub open spec fn count_grid_wf(count: &Vec<Vec<Vec<u32>>>) -> bool {
    &&& count@.len() == 17
    &&& forall|r: int| 0 <= r < 17 ==> #[trigger] count@[r]@.len() == 17
    &&& forall|r: int, g: int| 0 <= r < 17 && 0 <= g < 17 ==> #[trigger] count@[r]@[g]@.len() == 17
}

/// Whether grid cell `(r, g, b)` received at least one sample.
pub open spec fn occupied(count: &Vec<Vec<Vec<u32>>>, r: int, g: int, b: int) -> bool {
    count@[r]@[g]@[b] > 0
}

/// Squared Euclidean distance between two grid cells.
pub open spec fn dist2(a: (int, int, int), c: (int, int, int)) -> int {
    (a.0 - c.0) * (a.0 - c.0) + (a.1 - c.1) * (a.1 - c.1) + (a.2 - c.2) * (a.2 - c.2)
}

/// The distance used to pick the nearest occupied cell is the squared Euclidean distance
/// over all three axes: it is symmetric, zero exactly for the same cell, unchanged when
/// the axes are permuted, and along a single axis it is the squared coordinate gap.
pub proof fn lemma_dist2_is_euclidean(a: (int, int, int), c: (int, int, int))
    ensures
        dist2(a, c) == dist2(c, a),
        dist2(a, c) >= 0,
        dist2(a, c) == 0 <==> a == c,
        dist2(a, c) == dist2((a.2, a.0, a.1), (c.2, c.0, c.1)),
        dist2(a, c) == dist2((a.1, a.0, a.2), (c.1, c.0, c.2)),
        a.0 == c.0 && a.1 == c.1 ==> dist2(a, c) == (a.2 - c.2) * (a.2 - c.2),
        a.0 == c.0 && a.2 == c.2 ==> dist2(a, c) == (a.1 - c.1) * (a.1 - c.1),
        a.1 == c.1 && a.2 == c.2 ==> dist2(a, c) == (a.0 - c.0) * (a.0 - c.0),
{
    let x = a.0 - c.0;
    let y = a.1 - c.1;
    let z = a.2 - c.2;
    assert(x * x >= 0 && y * y >= 0 && z * z >= 0) by (nonlinear_arith);
    assert((c.0 - a.0) * (c.0 - a.0) == x * x && (c.1 - a.1) * (c.1 - a.1) == y * y && (c.2
        - a.2) * (c.2 - a.2) == z * z) by (nonlinear_arith)
        requires x == a.0 - c.0, y == a.1 - c.1, z == a.2 - c.2;
    assert(x * x + y * y + z * z == 0 ==> x == 0 && y == 0 && z == 0) by (nonlinear_arith);
    assert(x == 0 ==> x * x == 0);
    assert(y == 0 ==> y * y == 0);
    assert(z == 0 ==> z * z == 0);
    if dist2(a, c) == 0 {
        assert(a.0 == c.0 && a.1 == c.1 && a.2 == c.2);
        assert(a == c);
    }
}

/// Rank of a cell in the red-major scan (red slowest, blue fastest).
pub open spec fn scan_rank(v: (int, int, int)) -> int {
    v.0 * 289 + v.1 * 17 + v.2
}

/// The cell at rank `t` of the red-major scan.
pub open spec fn scan_cell(t: int) -> (int, int, int) {
    (t / 289, (t % 289) / 17, t % 17)
}

/// `w` is the occupied cell nearest to `c`; among equally near occupied cells it is
/// the first one met in the red-major scan.
pub open spec fn is_nearest_occupied(
    count: &Vec<Vec<Vec<u32>>>,
    c: (int, int, int),
    w: (int, int, int),
) -> bool {
    &&& in_grid(w.0, w.1, w.2)
    &&& occupied(count, w.0, w.1, w.2)
    &&& forall|v: (int, int, int)|
        in_grid(v.0, v.1, v.2) && #[trigger] occupied(count, v.0, v.1, v.2) ==> {
            &&& dist2(c, w) <= dist2(c, v)
            &&& dist2(c, v) == dist2(c, w) ==> scan_rank(w) <= scan_rank(v)
        }
}

/// There is at most one nearest occupied cell in this sense, so filling gives every empty
/// cell one determined value.
pub proof fn lemma_nearest_unique(
    count: &Vec<Vec<Vec<u32>>>,
    c: (int, int, int),
    w1: (int, int, int),
    w2: (int, int, int),
)
    requires
        is_nearest_occupied(count, c, w1),
        is_nearest_occupied(count, c, w2),
    ensures
        w1 == w2,
{
    assert(occupied(count, w1.0, w1.1, w1.2));
    assert(occupied(count, w2.0, w2.1, w2.2));
    lemma_scan_rank(w1);
    lemma_scan_rank(w2);
}

/// Whether some cell of the grid is occupied.
pub open spec fn any_occupied(count: &Vec<Vec<Vec<u32>>>) -> bool {
    exists|v: (int, int, int)| in_grid(v.0, v.1, v.2) && #[trigger] occupied(count, v.0, v.1, v.2)
}

proof fn lemma_scan_cell(t: int)
    requires
        0 <= t < 4913,
    ensures
        in_grid(scan_cell(t).0, scan_cell(t).1, scan_cell(t).2),
        scan_rank(scan_cell(t)) == t,
{
    let a = t / 289;
    let rem = t % 289;
    assert(t == a * 289 + rem && 0 <= rem < 289 && 0 <= a < 17) by (nonlinear_arith)
        requires 0 <= t < 4913, a == t / 289, rem == t % 289;
    assert(rem == (rem / 17) * 17 + rem % 17 && 0 <= rem / 17 < 17 && 0 <= rem % 17 < 17)
        by (nonlinear_arith)
        requires 0 <= rem < 289;
}

proof fn lemma_scan_rank(v: (int, int, int))
    requires
        in_grid(v.0, v.1, v.2),
    ensures
        0 <= scan_rank(v) < 4913,
        scan_cell(scan_rank(v)) == v,
{
    let t = scan_rank(v);
    assert(t / 289 == v.0 && t % 289 == v.1 * 17 + v.2 && 0 <= t < 4913) by (nonlinear_arith)
        requires t == v.0 * 289 + v.1 * 17 + v.2, 0 <= v.0 < 17, 0 <= v.1 < 17, 0 <= v.2 < 17;
    let rem = v.1 * 17 + v.2;
    assert(rem / 17 == v.1 && rem % 17 == v.2) by (nonlinear_arith)
        requires rem == v.1 * 17 + v.2, 0 <= v.1 < 17, 0 <= v.2 < 17;
}

fn grid_dist2(a: (usize, usize, usize), c: (usize, usize, usize)) -> (d: u32)
    requires
        in_grid(a.0 as int, a.1 as int, a.2 as int),
        in_grid(c.0 as int, c.1 as int, c.2 as int),
    ensures
        d as int == dist2(
            (a.0 as int, a.1 as int, a.2 as int),
            (c.0 as int, c.1 as int, c.2 as int),
        ),
{
    let dr: u32 = if a.0 >= c.0 { (a.0 - c.0) as u32 } else { (c.0 - a.0) as u32 };
    let dg: u32 = if a.1 >= c.1 { (a.1 - c.1) as u32 } else { (c.1 - a.1) as u32 };
    let db: u32 = if a.2 >= c.2 { (a.2 - c.2) as u32 } else { (c.2 - a.2) as u32 };
    assert(dr * dr <= 256 && dg * dg <= 256 && db * db <= 256) by (nonlinear_arith)
        requires dr <= 16, dg <= 16, db <= 16;
    assert(dr * dr == (a.0 - c.0) * (a.0 - c.0)) by (nonlinear_arith)
        requires dr == a.0 - c.0 || dr == c.0 - a.0;
    assert(dg * dg == (a.1 - c.1) * (a.1 - c.1)) by (nonlinear_arith)
        requires dg == a.1 - c.1 || dg == c.1 - a.1;
    assert(db * db == (a.2 - c.2) * (a.2 - c.2)) by (nonlinear_arith)
        requires db == a.2 - c.2 || db == c.2 - a.2;
    dr * dr + dg * dg + db * db
}


/// Searches the whole grid in red-major order for the occupied cell nearest to `c`.
fn find_nearest_occupied(count: &Vec<Vec<Vec<u32>>>, c: (usize, usize, usize)) -> (res: Option<
    (usize, usize, usize),
>)
    requires
        count_grid_wf(count),
        in_grid(c.0 as int, c.1 as int, c.2 as int),
    ensures
        match res {
            Some(w) => is_nearest_occupied(
                count,
                (c.0 as int, c.1 as int, c.2 as int),
                (w.0 as int, w.1 as int, w.2 as int),
            ),
            None => !any_occupied(count),
        },
{
    let ghost ci = (c.0 as int, c.1 as int, c.2 as int);
    let mut best: Option<(usize, usize, usize)> = None;
    let mut best_d: u32 = 0;
    let mut t: usize = 0;
    while t < LUT_TOTAL
        invariant
            0 <= t <= 4913,
            count_grid_wf(count),
            in_grid(c.0 as int, c.1 as int, c.2 as int),
            ci == (c.0 as int, c.1 as int, c.2 as int),
            match best {
                Some(w) => {
                    &&& in_grid(w.0 as int, w.1 as int, w.2 as int)
                    &&& occupied(count, w.0 as int, w.1 as int, w.2 as int)
                    &&& best_d as int == dist2(ci, (w.0 as int, w.1 as int, w.2 as int))
                    &&& scan_rank((w.0 as int, w.1 as int, w.2 as int)) < t
                },
                None => true,
            },
            forall|u: int|
                0 <= u < t && #[trigger] occupied(count, scan_cell(u).0, scan_cell(u).1, scan_cell(u).2)
                    ==> match best {
                    Some(w) => {
                        &&& dist2(ci, (w.0 as int, w.1 as int, w.2 as int)) <= dist2(ci, scan_cell(u))
                        &&& dist2(ci, scan_cell(u)) == dist2(ci, (w.0 as int, w.1 as int, w.2 as int))
                            ==> scan_rank((w.0 as int, w.1 as int, w.2 as int)) <= u
                    },
                    None => false,
                },
        decreases 4913 - t,
    {
        let ir = t / (LUT_SIZE * LUT_SIZE);
        let ig = (t % (LUT_SIZE * LUT_SIZE)) / LUT_SIZE;
        let ib = t % LUT_SIZE;
        proof {
            lemma_scan_cell(t as int);
        }
        assert(scan_cell(t as int) == (ir as int, ig as int, ib as int));
        if count[ir][ig][ib] > 0 {
            let d = grid_dist2(c, (ir, ig, ib));
            let replace = match best {
                None => true,
                Some(_) => d < best_d,
            };
            if replace {
                best = Some((ir, ig, ib));
                best_d = d;
            }
        }
        proof {
            assert forall|u: int|
                0 <= u < t + 1 && #[trigger] occupied(count, scan_cell(u).0, scan_cell(u).1, scan_cell(u).2)
                    implies match best {
                    Some(w) => {
                        &&& dist2(ci, (w.0 as int, w.1 as int, w.2 as int)) <= dist2(ci, scan_cell(u))
                        &&& dist2(ci, scan_cell(u)) == dist2(ci, (w.0 as int, w.1 as int, w.2 as int))
                            ==> scan_rank((w.0 as int, w.1 as int, w.2 as int)) <= u
                    },
                    None => false,
                } by {
                if u < t {
                    assert(occupied(count, scan_cell(u).0, scan_cell(u).1, scan_cell(u).2));
                }
            }
        }
        t += 1;
    }
    proof {
        match best {
            Some(w) => {
                let wi = (w.0 as int, w.1 as int, w.2 as int);
                assert forall|v: (int, int, int)|
                    in_grid(v.0, v.1, v.2) && #[trigger] occupied(count, v.0, v.1, v.2) implies {
                        &&& dist2(ci, wi) <= dist2(ci, v)
                        &&& dist2(ci, v) == dist2(ci, wi) ==> scan_rank(wi) <= scan_rank(v)
                    } by {
                    lemma_scan_rank(v);
                    let u = scan_rank(v);
                    assert(occupied(count, scan_cell(u).0, scan_cell(u).1, scan_cell(u).2));
                }
            },
            None => {
                if any_occupied(count) {
                    let v = choose|v: (int, int, int)|
                        in_grid(v.0, v.1, v.2) && #[trigger] occupied(count, v.0, v.1, v.2);
                    lemma_scan_rank(v);
                    let u = scan_rank(v);
                    assert(occupied(count, scan_cell(u).0, scan_cell(u).1, scan_cell(u).2));
                }
            },
        }
    }
    best
}


/// Number of entries of `cells` equal to `c`.
pub open spec fn cell_hits(cells: Seq<(usize, usize, usize)>, c: (int, int, int), n: int) -> int
    decreases n,
{
    if n <= 0 {
        0
    } else {
        cell_hits(cells, c, n - 1) + if (cells[n - 1].0 as int, cells[n - 1].1 as int, cells[n
            - 1].2 as int) == c {
            1int
        } else {
            0int
        }
    }
}

proof fn lemma_cell_hits_bound(cells: Seq<(usize, usize, usize)>, c: (int, int, int), n: int)
    requires
        0 <= n,
    ensures
        0 <= cell_hits(cells, c, n) <= n,
    decreases n,
{
    if n > 0 {
        lemma_cell_hits_bound(cells, c, n - 1);
    }
}

/// The per-cell sample count of a list of grid cells, indexed `[r][g][b]`.
pub fn cell_counts(cells: &Vec<(usize, usize, usize)>) -> (count: Vec<Vec<Vec<u32>>>)
    requires
        cells@.len() <= u32::MAX,
        forall|i: int|
            0 <= i < cells@.len() ==> in_grid(
                (#[trigger] cells@[i]).0 as int,
                cells@[i].1 as int,
                cells@[i].2 as int,
            ),
    ensures
        count_grid_wf(&count),
        forall|r: int, g: int, b: int|
            in_grid(r, g, b) ==> #[trigger] count@[r]@[g]@[b] == cell_hits(
                cells@,
                (r, g, b),
                cells@.len() as int,
            ),
{
    let mut count: Vec<Vec<Vec<u32>>> = Vec::new();
    let mut r: usize = 0;
    while r < LUT_SIZE
        invariant
            0 <= r <= 17,
            count@.len() == r,
            forall|a: int| 0 <= a < r ==> #[trigger] count@[a]@.len() == 17,
            forall|a: int, g: int| 0 <= a < r && 0 <= g < 17 ==> #[trigger] count@[a]@[g]@.len() == 17,
            forall|a: int, g: int, b: int|
                0 <= a < r && 0 <= g < 17 && 0 <= b < 17 ==> #[trigger] count@[a]@[g]@[b] == 0,
        decreases 17 - r,
    {
        let mut plane: Vec<Vec<u32>> = Vec::new();
        let mut g: usize = 0;
        while g < LUT_SIZE
            invariant
                0 <= g <= 17,
                plane@.len() == g,
                forall|a: int| 0 <= a < g ==> #[trigger] plane@[a]@.len() == 17,
                forall|a: int, b: int| 0 <= a < g && 0 <= b < 17 ==> #[trigger] plane@[a]@[b] == 0,
            decreases 17 - g,
        {
            let mut row: Vec<u32> = Vec::new();
            let mut b: usize = 0;
            while b < LUT_SIZE
                invariant
                    0 <= b <= 17,
                    row@.len() == b,
                    forall|a: int| 0 <= a < b ==> #[trigger] row@[a] == 0,
                decreases 17 - b,
            {
                row.push(0);
                b += 1;
            }
            plane.push(row);
            g += 1;
        }
        count.push(plane);
        r += 1;
    }
    let n = cells.len();
    let mut i: usize = 0;
    while i < n
        invariant
            n == cells@.len(),
            n <= u32::MAX,
            0 <= i <= n,
            forall|k: int|
                0 <= k < cells@.len() ==> in_grid(
                    (#[trigger] cells@[k]).0 as int,
                    cells@[k].1 as int,
                    cells@[k].2 as int,
                ),
            count_grid_wf(&count),
            forall|r: int, g: int, b: int|
                in_grid(r, g, b) ==> #[trigger] count@[r]@[g]@[b] == cell_hits(
                    cells@,
                    (r, g, b),
                    i as int,
                ),
        decreases n - i,
    {
        let (cr, cg, cb) = cells[i];
        proof {
            lemma_cell_hits_bound(cells@, (cr as int, cg as int, cb as int), i as int);
        }
        let ghost prev = count@;
        let v = count[cr][cg][cb];
        count[cr][cg][cb] = v + 1;
        proof {
            assert forall|r: int, g: int, b: int|
                in_grid(r, g, b) implies #[trigger] count@[r]@[g]@[b] == cell_hits(
                cells@,
                (r, g, b),
                i + 1,
            ) by {
                if r != cr {
                    assert(count@[r] == prev[r]);
                } else if g != cg {
                    assert(count@[r]@[g] == prev[r]@[g]);
                }
            }
            assert forall|r: int| 0 <= r < 17 implies #[trigger] count@[r]@.len() == 17 by {
                if r != cr {
                    assert(count@[r] == prev[r]);
                }
            }
            assert forall|r: int, g: int|
                0 <= r < 17 && 0 <= g < 17 implies #[trigger] count@[r]@[g]@.len() == 17 by {
                if r != cr {
                    assert(count@[r] == prev[r]);
                } else if g != cg {
                    assert(count@[r]@[g] == prev[r]@[g]);
                }
            }
        }
        i += 1;
    }
    count
}

/// Number of occupied cells among the first `t` cells of the red-major scan.
pub open spec fn occupied_prefix(count: &Vec<Vec<Vec<u32>>>, t: int) -> int
    decreases t,
{
    if t <= 0 {
        0
    } else {
        occupied_prefix(count, t - 1) + if occupied(
            count,
            scan_cell(t - 1).0,
            scan_cell(t - 1).1,
            scan_cell(t - 1).2,
        ) {
            1int
        } else {
            0int
        }
    }
}

proof fn lemma_occupied_prefix_bounds(count: &Vec<Vec<Vec<u32>>>, t: int)
    requires
        t >= 0,
    ensures
        0 <= occupied_prefix(count, t) <= t,
    decreases t,
{
    if t > 0 {
        lemma_occupied_prefix_bounds(count, t - 1);
    }
}

/// Number of grid cells that received at least one sample.
pub fn count_occupied(count: &Vec<Vec<Vec<u32>>>) -> (n: usize)
    requires
        count_grid_wf(count),
    ensures
        n == occupied_prefix(count, 4913),
        n <= LUT_TOTAL,
{
    let mut n: usize = 0;
    let mut t: usize = 0;
    while t < LUT_TOTAL
        invariant
            0 <= t <= 4913,
            count_grid_wf(count),
            n == occupied_prefix(count, t as int),
            n <= t,
        decreases 4913 - t,
    {
        let ir = t / (LUT_SIZE * LUT_SIZE);
        let ig = (t % (LUT_SIZE * LUT_SIZE)) / LUT_SIZE;
        let ib = t % LUT_SIZE;
        proof {
            lemma_scan_cell(t as int);
        }
        if count[ir][ig][ib] > 0 {
            n += 1;
        }
        t += 1;
    }
    n
}

/// What filling leaves in cell `idx`: an occupied cell keeps its value; an empty cell
/// takes the value that its nearest occupied cell had, or `empty_value` when no cell
/// is occupied.
pub open spec fn filled_cell<T>(
    count: &Vec<Vec<Vec<u32>>>,
    before: Seq<T>,
    after: Seq<T>,
    empty_value: T,
    idx: int,
) -> bool {
    let c = lut_coords_spec(idx);
    if occupied(count, c.0, c.1, c.2) {
        after[idx] == before[idx]
    } else if !any_occupied(count) {
        after[idx] == empty_value
    } else {
        exists|w: (int, int, int)|
            #[trigger] is_nearest_occupied(count, c, w) && after[idx] == before[lut_index_spec(
                w.0,
                w.1,
                w.2,
            )]
    }
}

/// Gives every empty cell of `lut` the value of its nearest occupied cell (the first
/// one in red-major scan order among equally near ones); occupied cells keep their
/// value, and when no cell is occupied every empty cell receives `empty_value`.
///
/// `lut` is indexed by [`get_lut_index`] and `count` by `[r][g][b]`; cells past the
/// grid's 4913 are left as they are. Distances are
/// compared squared, which orders cells exactly as their Euclidean distance does.
pub fn fill_empty_cells<T: Copy>(lut: &mut Vec<T>, count: &Vec<Vec<Vec<u32>>>, empty_value: T)
    requires
        old(lut)@.len() >= LUT_TOTAL,
        count_grid_wf(count),
    ensures
        final(lut)@.len() == old(lut)@.len(),
        forall|idx: int|
            LUT_TOTAL <= idx < old(lut)@.len() ==> #[trigger] final(lut)@[idx] == old(lut)@[idx],
        forall|idx: int|
            0 <= idx < 4913 ==> #[trigger] filled_cell(
                count,
                old(lut)@,
                final(lut)@,
                empty_value,
                idx,
            ),
{
    let ghost before = lut@;
    let mut idx: usize = 0;
    while idx < LUT_TOTAL
        invariant
            0 <= idx <= 4913,
            lut@.len() == before.len(),
            before.len() >= 4913,
            forall|j: int| 4913 <= j < before.len() ==> #[trigger] lut@[j] == before[j],
            count_grid_wf(count),
            forall|j: int|
                0 <= j < 4913 && (j >= idx || occupied(
                    count,
                    lut_coords_spec(j).0,
                    lut_coords_spec(j).1,
                    lut_coords_spec(j).2,
                )) ==> #[trigger] lut@[j] == before[j],
            forall|j: int|
                0 <= j < idx ==> #[trigger] filled_cell(count, before, lut@, empty_value, j),
        decreases 4913 - idx,
    {
        let (r, g, b) = get_lut_coords(idx);
        proof {
            lemma_index_of_coords(idx as int);
        }
        let ghost prev = lut@;
        if count[r][g][b] == 0 {
            let ghost c = (r as int, g as int, b as int);
            let found = find_nearest_occupied(count, (r, g, b));
            let value = match found {
                Some(w) => {
                    let j = get_lut_index(w.0, w.1, w.2);
                    proof {
                        lemma_coords_of_index(w.0 as int, w.1 as int, w.2 as int);
                        assert(lut@[j as int] == before[j as int]);
                    }
                    lut[j]
                },
                None => empty_value,
            };
            lut[idx] = value;
            proof {
                assert forall|j: int| 0 <= j < lut@.len() && j != idx implies #[trigger] lut@[j]
                    == prev[j] by {}
                match found {
                    Some(w) => {
                        let wi = (w.0 as int, w.1 as int, w.2 as int);
                        assert(is_nearest_occupied(count, c, wi));
                        assert(lut@[idx as int] == before[lut_index_spec(wi.0, wi.1, wi.2)]);
                    },
                    None => {},
                }
                assert(filled_cell(count, before, lut@, empty_value, idx as int));
                assert forall|j: int| 0 <= j < idx implies #[trigger] filled_cell(
                    count,
                    before,
                    lut@,
                    empty_value,
                    j,
                ) by {
                    assert(filled_cell(count, before, prev, empty_value, j));
                    assert(lut@[j] == prev[j]);
                    let cj = lut_coords_spec(j);
                    if !occupied(count, cj.0, cj.1, cj.2) && any_occupied(count) {
                        let w = choose|w: (int, int, int)|
                            #[trigger] is_nearest_occupied(count, cj, w) && prev[j]
                                == before[lut_index_spec(w.0, w.1, w.2)];
                        assert(is_nearest_occupied(count, cj, w));
                    }
                }
            }
        } else {
            assert(lut@[idx as int] == before[idx as int]);
            assert(filled_cell(count, before, lut@, empty_value, idx as int));
        }
        idx += 1;
    }
}

} // verus!
