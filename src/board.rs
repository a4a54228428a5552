use vstd::prelude::*;

verus! {

/// The value a cell holds while it is still covered.
pub const UNREVEALED: i32 = -1;

/// The largest side a board may have: the random source draws cell numbers
/// below 2^32, so a board holds at most `u32::MAX` cells.
pub const MAX_SIDE: usize = 65535;

/// The mathematical picture of a board: three square matrices indexed
/// `[row][col]`.
pub ghost struct BoardView {
    pub n: int,
    pub value: Seq<Seq<i32>>,
    pub mine: Seq<Seq<bool>>,
    pub flag: Seq<Seq<bool>>,
}

/// `(c2, r2)` is one of the eight cells around `(c, r)`.
pub open spec fn is_neighbor(c: int, r: int, c2: int, r2: int) -> bool {
    &&& -1 <= c2 - c <= 1
    &&& -1 <= r2 - r <= 1
    &&& (c2 != c || r2 != r)
}

/// How many entries of `s` equal `v`.
pub open spec fn count_in_row<A>(s: Seq<A>, v: A) -> nat
    decreases s.len(),
{
    if s.len() == 0 {
        0
    } else {
        count_in_row(s.drop_last(), v) + if s.last() == v { 1nat } else { 0nat }
    }
}

/// How many entries of the matrix `m` equal `v`.
pub open spec fn count_in_matrix<A>(m: Seq<Seq<A>>, v: A) -> nat
    decreases m.len(),
{
    if m.len() == 0 {
        0
    } else {
        count_in_matrix(m.drop_last(), v) + count_in_row(m.last(), v)
    }
}

/// The number of mines placed on a board of side `n`: `n * n * 0.182`,
/// rounded to the nearest integer (no value falls halfway).
pub open spec fn mine_target(n: int) -> int {
    (n * n * 182 + 500) / 1000
}

impl BoardView {
    pub open spec fn in_bounds(self, c: int, r: int) -> bool {
        0 <= c < self.n && 0 <= r < self.n
    }

    pub open spec fn value_at(self, c: int, r: int) -> int {
        self.value[r][c] as int
    }

    pub open spec fn mine_at(self, c: int, r: int) -> bool {
        self.mine[r][c]
    }

    pub open spec fn flag_at(self, c: int, r: int) -> bool {
        self.flag[r][c]
    }

    pub open spec fn revealed(self, c: int, r: int) -> bool {
        self.value_at(c, r) != UNREVEALED
    }

    /// 1 where an in-bounds mine lies, 0 elsewhere (off the board included).
    pub open spec fn mine_weight(self, c: int, r: int) -> int {
        if self.in_bounds(c, r) && self.mine_at(c, r) {
            1
        } else {
            0
        }
    }

    /// The number of mines among the eight cells around `(c, r)`.
    pub open spec fn adjacent_mines(self, c: int, r: int) -> int {
        self.mine_weight(c - 1, r - 1) + self.mine_weight(c, r - 1) + self.mine_weight(c + 1, r - 1)
            + self.mine_weight(c - 1, r) + self.mine_weight(c + 1, r)
            + self.mine_weight(c - 1, r + 1) + self.mine_weight(c, r + 1)
            + self.mine_weight(c + 1, r + 1)
    }

    /// The three matrices are `n` by `n`.
    pub open spec fn shaped(self) -> bool {
        &&& 1 <= self.n <= MAX_SIDE
        &&& self.value.len() == self.n
        &&& self.mine.len() == self.n
        &&& self.flag.len() == self.n
        &&& forall|r: int| 0 <= r < self.n ==> (#[trigger] self.value[r]).len() == self.n
        &&& forall|r: int| 0 <= r < self.n ==> (#[trigger] self.mine[r]).len() == self.n
        &&& forall|r: int| 0 <= r < self.n ==> (#[trigger] self.flag[r]).len() == self.n
    }

    /// What play keeps true of one cell: a revealed cell shows its count and
    /// is no mine, a flagged cell is covered, and the cells around a revealed
    /// zero are revealed too.
    pub open spec fn cell_ok(self, c: int, r: int) -> bool {
        &&& (self.value_at(c, r) == UNREVEALED || (self.value_at(c, r) == self.adjacent_mines(c, r)
            && !self.mine_at(c, r)))
        &&& (self.flag_at(c, r) ==> self.value_at(c, r) == UNREVEALED)
        &&& (self.value_at(c, r) == 0 ==> forall|c2: int, r2: int|
            #[trigger] is_neighbor(c, r, c2, r2) && self.in_bounds(c2, r2) ==> self.revealed(c2, r2))
    }

    pub open spec fn wf(self) -> bool {
        &&& self.shaped()
        &&& forall|c: int, r: int| self.in_bounds(c, r) ==> #[trigger] self.cell_ok(c, r)
    }

    /// Every flag marks a mine and every mine carries a flag.
    pub open spec fn won(self) -> bool {
        forall|c: int, r: int| self.in_bounds(c, r) ==> #[trigger] self.flag_at(c, r) == self.mine_at(c, r)
    }

    pub open spec fn mine_count(self) -> nat {
        count_in_matrix(self.mine, true)
    }

    pub open spec fn hidden_count(self) -> nat {
        count_in_matrix(self.value, UNREVEALED)
    }

    /// `s` holds the start cell `(c, r)` and, with each zero-count cell it
    /// holds, the cells around it.
    pub open spec fn flood_closed(self, c: int, r: int, s: Set<(int, int)>) -> bool {
        &&& s.contains((c, r))
        &&& forall|x: int, y: int, a: int, b: int|
            #![trigger s.contains((x, y)), is_neighbor(x, y, a, b)]
            s.contains((x, y)) && self.in_bounds(x, y) && self.adjacent_mines(x, y) == 0
                && self.in_bounds(a, b) && is_neighbor(x, y, a, b) ==> s.contains((a, b))
    }

    /// `(c2, r2)` lies in the flood of `(c, r)`: the least set that holds the
    /// start and spreads from each zero-count cell to its neighbours.
    pub open spec fn in_flood(self, c: int, r: int, c2: int, r2: int) -> bool {
        forall|s: Set<(int, int)>| #[trigger] self.flood_closed(c, r, s) ==> s.contains((c2, r2))
    }
}

pub proof fn lemma_count_row_update<A>(s: Seq<A>, i: int, x: A, v: A)
    requires
        0 <= i < s.len(),
    ensures
        count_in_row(s.update(i, x), v) + (if s[i] == v { 1int } else { 0int })
            == count_in_row(s, v) + (if x == v { 1int } else { 0int }),
    decreases s.len(),
{
    let t = s.update(i, x);
    if i == s.len() - 1 {
        assert(t.drop_last() =~= s.drop_last());
    } else {
        assert(t.drop_last() =~= s.drop_last().update(i, x));
        lemma_count_row_update(s.drop_last(), i, x, v);
    }
}

pub proof fn lemma_count_matrix_update<A>(m: Seq<Seq<A>>, i: int, row: Seq<A>, v: A)
    requires
        0 <= i < m.len(),
    ensures
        count_in_matrix(m.update(i, row), v) + count_in_row(m[i], v)
            == count_in_matrix(m, v) + count_in_row(row, v),
    decreases m.len(),
{
    let t = m.update(i, row);
    if i == m.len() - 1 {
        assert(t.drop_last() =~= m.drop_last());
    } else {
        assert(t.drop_last() =~= m.drop_last().update(i, row));
        lemma_count_matrix_update(m.drop_last(), i, row, v);
    }
}

/// Changing one entry of a matrix moves its count of `v` by at most one.
pub proof fn lemma_count_cell_update<A>(m: Seq<Seq<A>>, r: int, c: int, x: A, v: A)
    requires
        0 <= r < m.len(),
        0 <= c < m[r].len(),
    ensures
        count_in_matrix(m.update(r, m[r].update(c, x)), v) + (if m[r][c] == v { 1int } else { 0int })
            == count_in_matrix(m, v) + (if x == v { 1int } else { 0int }),
{
    lemma_count_row_update(m[r], c, x, v);
    lemma_count_matrix_update(m, r, m[r].update(c, x), v);
}

pub proof fn lemma_count_row_prefix<A>(s: Seq<A>, k: int, v: A)
    requires
        0 <= k < s.len(),
    ensures
        count_in_row(s.take(k + 1), v) == count_in_row(s.take(k), v) + if s[k] == v { 1nat } else { 0nat },
{
    assert(s.take(k + 1).drop_last() =~= s.take(k));
}

pub proof fn lemma_count_matrix_prefix<A>(m: Seq<Seq<A>>, k: int, v: A)
    requires
        0 <= k < m.len(),
    ensures
        count_in_matrix(m.take(k + 1), v) == count_in_matrix(m.take(k), v) + count_in_row(m[k], v),
{
    assert(m.take(k + 1).drop_last() =~= m.take(k));
}

/// A revealed zero has no mine around it: each neighbour on the board is free.
pub proof fn lemma_zero_has_no_mined_neighbor(g: BoardView, c: int, r: int, c2: int, r2: int)
    requires
        g.adjacent_mines(c, r) == 0,
        is_neighbor(c, r, c2, r2),
        g.in_bounds(c2, r2),
    ensures
        !g.mine_at(c2, r2),
{
    assert(g.mine_weight(c2, r2) == 0);
}

} // verus!
