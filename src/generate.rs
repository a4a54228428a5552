use vstd::prelude::*;

use crate::board::{count_in_matrix, count_in_row, lemma_count_cell_update, mine_target, MAX_SIDE};
use crate::grid::{square_of, Grid};

verus! {

/// Relies on macroquad::rand::gen_range on `usize`: it scales a 32-bit draw
/// `u` to `floor(n * u / 2^32)`, which lies below `n` when `n < 2^32`.
#[verifier::external_body]
fn random_below(n: usize) -> (r: usize)
    requires
        0 < n <= u32::MAX,
    ensures
        r < n,
{
    macroquad::rand::gen_range(0usize, n)
}

/// `p` comes before `q` in row-major order.
spec fn row_major_before(p: (usize, usize), q: (usize, usize)) -> bool {
    p.1 < q.1 || (p.1 == q.1 && p.0 < q.0)
}

proof fn lemma_all_absent(m: Seq<Seq<bool>>, v: bool)
    requires
        forall|r: int, c: int| 0 <= r < m.len() && 0 <= c < m[r].len() ==> m[r][c] != v,
    ensures
        count_in_matrix(m, v) == 0,
    decreases m.len(),
{
    if m.len() > 0 {
        lemma_all_absent(m.drop_last(), v);
        lemma_row_absent(m.last(), v);
    }
}

proof fn lemma_row_absent(s: Seq<bool>, v: bool)
    requires
        forall|c: int| 0 <= c < s.len() ==> s[c] != v,
    ensures
        count_in_row(s, v) == 0,
    decreases s.len(),
{
    if s.len() > 0 {
        lemma_row_absent(s.drop_last(), v);
    }
}

/// Every cell of an `n` by `n` board, row by row.
fn all_cells(n: usize) -> (cells: Vec<(usize, usize)>)
    requires
        n <= MAX_SIDE,
    ensures
        cells@.len() == n * n,
        forall|k: int| 0 <= k < cells@.len() ==> (#[trigger] cells@[k]).0 < n && cells@[k].1 < n,
        forall|i: int, j: int| 0 <= i < j < cells@.len() ==> row_major_before(#[trigger] cells@[i], #[trigger] cells@[j]),
{
    let mut cells: Vec<(usize, usize)> = Vec::new();
    let mut y: usize = 0;
    while y < n
        invariant
            n <= MAX_SIDE,
            y <= n,
            cells@.len() == y * n,
            forall|k: int| 0 <= k < cells@.len() ==> (#[trigger] cells@[k]).0 < n && cells@[k].1 < y,
            forall|i: int, j: int| 0 <= i < j < cells@.len() ==> row_major_before(#[trigger] cells@[i], #[trigger] cells@[j]),
        decreases n - y,
    {
        let mut x: usize = 0;
        while x < n
            invariant
                n <= MAX_SIDE,
                y < n,
                x <= n,
                cells@.len() == y * n + x,
                forall|k: int|
                    0 <= k < cells@.len() ==> (#[trigger] cells@[k]).0 < n && (cells@[k].1 < y || (cells@[k].1 == y
                        && cells@[k].0 < x)),
                forall|i: int, j: int| 0 <= i < j < cells@.len() ==> row_major_before(#[trigger] cells@[i], #[trigger] cells@[j]),
            decreases n - x,
        {
            proof {
                assert(y * n + x < n * n) by (nonlinear_arith)
                    requires
                        y < n,
                        x < n,
                ;
                assert(n * n <= MAX_SIDE * MAX_SIDE) by (nonlinear_arith)
                    requires
                        n <= MAX_SIDE,
                ;
            }
            cells.push((x, y));
            x = x + 1;
        }
        proof {
            assert((y + 1) * n == y * n + n) by (nonlinear_arith);
        }
        y = y + 1;
    }
    cells
}

impl Grid {
    /// A fresh board of side `n`: every cell covered, no flag, and
    /// `round(n * n * 0.182)` mines on distinct cells, each new mine drawn
    /// uniformly among the cells still free.
    pub fn generate(n: usize) -> (g: Grid)
        requires
            1 <= n <= MAX_SIDE,
        ensures
            g@.wf(),
            g@.n == n,
            g@.mine_count() == mine_target(n as int),
            forall|c: int, r: int| #![trigger g@.revealed(c, r)] g@.in_bounds(c, r) ==> !g@.revealed(c, r) && !g@.flag_at(c, r),
    {
        let mut mines = square_of(n, false);
        let mut free = all_cells(n);
        proof {
            assert(n * n <= MAX_SIDE * MAX_SIDE) by (nonlinear_arith)
                requires
                    n <= MAX_SIDE,
            ;
            assert(n * n >= 1) by (nonlinear_arith)
                requires
                    n >= 1,
            ;
            lemma_all_absent(mines@.map_values(|row: Vec<bool>| row@), true);
        }
        let cells: u64 = (n as u64) * (n as u64);
        let target = ((cells * 182 + 500) / 1000) as usize;
        let mut placed: usize = 0;
        while placed < target
            invariant
                1 <= n <= MAX_SIDE,
                n * n <= MAX_SIDE * MAX_SIDE,
                target == mine_target(n as int),
                target <= n * n,
                placed <= target,
                free@.len() + placed == n * n,
                mines@.len() == n,
                forall|r: int| 0 <= r < n ==> (#[trigger] mines@[r])@.len() == n,
                count_in_matrix(mines@.map_values(|row: Vec<bool>| row@), true) == placed,
                forall|k: int|
                    0 <= k < free@.len() ==> {
                        let (x, y) = #[trigger] free@[k];
                        x < n && y < n && !mines@[y as int]@[x as int]
                    },
                forall|i: int, j: int| 0 <= i < j < free@.len() ==> row_major_before(#[trigger] free@[i], #[trigger] free@[j]),
            decreases target - placed,
        {
            let ghost f0 = free@;
            let ghost m0 = mines@.map_values(|row: Vec<bool>| row@);
            let j = random_below(free.len());
            let (x, y) = free.remove(j);
            mines[y][x] = true;
            proof {
                let m1 = mines@.map_values(|row: Vec<bool>| row@);
                assert(m1 =~= m0.update(y as int, m0[y as int].update(x as int, true)));
                lemma_count_cell_update(m0, y as int, x as int, true, true);
                assert forall|k: int| 0 <= k < free@.len() implies {
                    let (a, b) = #[trigger] free@[k];
                    a < n && b < n && !mines@[b as int]@[a as int]
                } by {
                    if k < j {
                        assert(free@[k] == f0[k]);
                        assert(row_major_before(f0[k], f0[j as int]));
                    } else {
                        assert(free@[k] == f0[k + 1]);
                        assert(row_major_before(f0[j as int], f0[k + 1]));
                    }
                }
                assert forall|i: int, k: int| 0 <= i < k < free@.len() implies row_major_before(
                    #[trigger] free@[i],
                    #[trigger] free@[k],
                ) by {
                    let i0 = if i < j { i } else { i + 1 };
                    let k0 = if k < j { k } else { k + 1 };
                    assert(free@[i] == f0[i0]);
                    assert(free@[k] == f0[k0]);
                    assert(row_major_before(f0[i0], f0[k0]));
                }
            }
            placed = placed + 1;
        }
        let g = Grid::from_mines(mines);
        g
    }
}

} // verus!
